//! Diagonal ensembles: distributions over the levels of a spectrum.

use vstd::prelude::*;

use crate::error::{QmbedError, Reason, Result};
use crate::linear;
use crate::linear::{dotc, Gaussian, LinearOperator, Scalar};
use crate::numbers::{RealNumber, Whole};
use crate::statistics;
use crate::statistics::distribution_entropy;

verus! {

/// Complex scalars with real parts and squared magnitudes among the real numbers.
pub trait ComplexOver<R: RealNumber>: Scalar {
    spec fn spec_real(self) -> R;

    /// The squared magnitude.
    spec fn spec_weight(self) -> R;

    /// Whether the imaginary part is no more than rounding.
    spec fn spec_is_level(self) -> bool;

    /// Whether the imaginary part of a trace is no more than rounding.
    spec fn spec_is_clear(self) -> bool;

    /// Whether two scalars are conjugates of each other but for rounding.
    spec fn spec_mirrors(self, other: Self) -> bool;

    /// The scalar divided by a real number.
    spec fn spec_divided(self, divisor: R) -> Self;

    /// A real number as a scalar.
    spec fn spec_from_number(value: R) -> Self;

    fn real_number(&self) -> (value: R)
        ensures
            value == self.spec_real(),
    ;

    fn weight(&self) -> (value: R)
        ensures
            value == self.spec_weight(),
    ;

    fn is_level(&self) -> (answer: bool)
        ensures
            answer == self.spec_is_level(),
    ;

    fn is_clear(&self) -> (answer: bool)
        ensures
            answer == self.spec_is_clear(),
    ;

    fn mirrors(&self, other: &Self) -> (answer: bool)
        ensures
            answer == self.spec_mirrors(*other),
    ;

    fn divided(&self, divisor: R) -> (value: Self)
        ensures
            value == self.spec_divided(divisor),
    ;

    fn from_number(value: R) -> (scalar: Self)
        ensures
            scalar == Self::spec_from_number(value),
    ;
}

impl ComplexOver<Whole> for Gaussian {
    open spec fn spec_real(self) -> Whole {
        Whole { value: self.re }
    }

    open spec fn spec_weight(self) -> Whole {
        Whole {
            value: self.re.wrapping_mul(self.re).wrapping_add(self.im.wrapping_mul(self.im)),
        }
    }

    open spec fn spec_is_level(self) -> bool {
        self.im == 0
    }

    open spec fn spec_is_clear(self) -> bool {
        self.im == 0
    }

    open spec fn spec_mirrors(self, other: Self) -> bool {
        self == other.spec_conjugate()
    }

    open spec fn spec_divided(self, divisor: Whole) -> Self {
        Gaussian {
            re: Whole { value: self.re }.spec_over(divisor).value,
            im: Whole { value: self.im }.spec_over(divisor).value,
        }
    }

    open spec fn spec_from_number(value: Whole) -> Self {
        Gaussian { re: value.value, im: 0 }
    }

    fn real_number(&self) -> (value: Whole) {
        Whole { value: self.re }
    }

    fn weight(&self) -> (value: Whole) {
        Whole {
            value: self.re.wrapping_mul(self.re).wrapping_add(self.im.wrapping_mul(self.im)),
        }
    }

    fn is_level(&self) -> (answer: bool) {
        self.im == 0
    }

    fn is_clear(&self) -> (answer: bool) {
        self.im == 0
    }

    fn mirrors(&self, other: &Self) -> (answer: bool) {
        *self == other.conjugate()
    }

    fn divided(&self, divisor: Whole) -> (value: Self) {
        Gaussian {
            re: Whole { value: self.re }.over(divisor).value,
            im: Whole { value: self.im }.over(divisor).value,
        }
    }

    fn from_number(value: Whole) -> (scalar: Self) {
        Gaussian { re: value.value, im: 0 }
    }
}

/// A distribution over the levels of a spectrum with its statistics.
pub struct DiagonalEnsemble<R> {
    pub probabilities: Vec<R>,
    pub mean_energy: R,
    pub energy_variance: R,
    pub entropy: R,
}

/// Statistics of a distribution over the levels of a spectrum.
pub struct EnsembleModel<R> {
    pub probabilities: Seq<R>,
    pub mean_energy: R,
    pub energy_variance: R,
    pub entropy: R,
}

impl<R> View for DiagonalEnsemble<R> {
    type V = EnsembleModel<R>;

    open spec fn view(&self) -> EnsembleModel<R> {
        EnsembleModel {
            probabilities: self.probabilities@,
            mean_energy: self.mean_energy,
            energy_variance: self.energy_variance,
            entropy: self.entropy,
        }
    }
}

/// Weights divided by their sum.
pub open spec fn normalized<R: RealNumber>(weights: Seq<R>) -> Seq<R> {
    Seq::new(
        weights.len(),
        |i: int| weights[i].spec_over(statistics::total(weights, weights.len())),
    )
}

/// Sum of the first squared distances from a mean, weighted with probabilities.
pub open spec fn spread_about<R: RealNumber>(
    probabilities: Seq<R>,
    levels: Seq<R>,
    mean: R,
    count: nat,
) -> R
    decreases count,
{
    if count == 0 {
        R::spec_zero()
    } else {
        let distance = levels[count - 1].spec_minus(mean);
        spread_about(probabilities, levels, mean, (count - 1) as nat).spec_plus(
            probabilities[count - 1].spec_times(distance.spec_times(distance)),
        )
    }
}

/// The ensemble of some weights of levels.
pub open spec fn summary<R: RealNumber>(levels: Seq<R>, weights: Seq<R>) -> core::result::Result<
    EnsembleModel<R>,
    QmbedError,
> {
    let sum = statistics::total(weights, weights.len());
    if sum.spec_is_negligible() || !sum.spec_is_finite() {
        Err(QmbedError::InvalidOptions(Reason::Text("eigenvectors have no finite overlap with the initial state")))
    } else {
        let probabilities = normalized(weights);
        let mean = statistics::weighted(probabilities, levels, weights.len());
        Ok(
            EnsembleModel {
                probabilities,
                mean_energy: mean,
                energy_variance: spread_about(probabilities, levels, mean, weights.len()),
                entropy: statistics::shannon(probabilities),
            },
        )
    }
}

/// Whether a returned ensemble is the stated one.
pub open spec fn ensemble_is<R>(
    result: Result<DiagonalEnsemble<R>>,
    stated: core::result::Result<EnsembleModel<R>, QmbedError>,
) -> bool {
    match (result, stated) {
        (Ok(ensemble), Ok(model)) => ensemble@ == model,
        (Err(error), Err(found)) => error == found,
        _ => false,
    }
}

/// The ensemble of some weights of levels.
pub fn summarize_diagonal_probabilities<R: RealNumber>(eigenvalues: &Vec<R>, weights: &Vec<R>) -> (result: Result<
    DiagonalEnsemble<R>,
>)
    requires
        eigenvalues@.len() == weights@.len(),
    ensures
        ensemble_is(result, summary(eigenvalues@, weights@)),
{
    let sum: R = statistics::sum_of(weights);
    if sum.is_negligible() || !sum.is_finite() {
        return Err(
            QmbedError::InvalidOptions(Reason::Text("eigenvectors have no finite overlap with the initial state")),
        );
    }
    let mut probabilities: Vec<R> = Vec::new();
    let mut next: usize = 0;
    while next < weights.len()
        invariant
            next <= weights@.len(),
            sum == statistics::total(weights@, weights@.len()),
            probabilities@ == normalized(weights@).take(next as int),
        decreases weights@.len() - next,
    {
        probabilities.push(weights[next].over(sum));
        next += 1;
        assert(probabilities@ =~= normalized(weights@).take(next as int));
    }
    assert(probabilities@ =~= normalized(weights@));
    let mean_energy: R = statistics::weighted_sum(&probabilities, eigenvalues);
    let mut energy_variance: R = R::zero();
    let mut next: usize = 0;
    while next < probabilities.len()
        invariant
            next <= probabilities@.len(),
            probabilities@.len() == eigenvalues@.len(),
            energy_variance == spread_about(
                probabilities@,
                eigenvalues@,
                mean_energy,
                next as nat,
            ),
        decreases probabilities@.len() - next,
    {
        let distance: R = eigenvalues[next].minus(mean_energy);
        energy_variance = energy_variance.plus(probabilities[next].times(distance.times(distance)));
        next += 1;
    }
    let entropy: R = statistics::shannon_entropy(&probabilities);
    Ok(DiagonalEnsemble { probabilities, mean_energy, energy_variance, entropy })
}

/// Whether all numbers of a list are finite and not negative.
pub open spec fn all_nonnegative<R: RealNumber>(values: Seq<R>) -> bool {
    forall|i: int|
        0 <= i < values.len() ==> (#[trigger] values[i]).spec_is_finite()
            && R::spec_zero().spec_at_most(values[i])
}

pub fn check_nonnegative<R: RealNumber>(values: &Vec<R>) -> (answer: bool)
    ensures
        answer == all_nonnegative(values@),
{
    let mut next: usize = 0;
    while next < values.len()
        invariant
            next <= values@.len(),
            forall|i: int|
                0 <= i < next ==> (#[trigger] values@[i]).spec_is_finite()
                    && R::spec_zero().spec_at_most(values@[i]),
        decreases values@.len() - next,
    {
        if !values[next].is_finite() || !R::zero().at_most(values[next]) {
            assert(!(values@[next as int].spec_is_finite() && R::spec_zero().spec_at_most(
                values@[next as int],
            )));
            return false;
        }
        next += 1;
    }
    true
}

/// The ensemble of given probabilities.
pub open spec fn probability_ensemble<R: RealNumber>(levels: Seq<R>, probabilities: Seq<R>) -> core::result::Result<
    EnsembleModel<R>,
    QmbedError,
> {
    if levels.len() != probabilities.len() || !all_nonnegative(probabilities) {
        Err(
            QmbedError::InvalidOptions(
                Reason::Text("diagonal probabilities must be finite, nonnegative, and match the spectrum"),
            ),
        )
    } else {
        summary(levels, probabilities)
    }
}

/// The ensemble of given probabilities.
pub fn diagonal_ensemble_from_probabilities<R: RealNumber>(
    eigenvalues: &Vec<R>,
    probabilities: &Vec<R>,
) -> (result: Result<DiagonalEnsemble<R>>)
    ensures
        ensemble_is(result, probability_ensemble(eigenvalues@, probabilities@)),
{
    if eigenvalues.len() != probabilities.len() || !check_nonnegative(probabilities) {
        return Err(
            QmbedError::InvalidOptions(
                Reason::Text("diagonal probabilities must be finite, nonnegative, and match the spectrum"),
            ),
        );
    }
    summarize_diagonal_probabilities(eigenvalues, probabilities)
}

/// Numbers with one more, behind those that do not exceed it.
pub open spec fn level_placed<R: RealNumber>(sorted: Seq<R>, level: R) -> Seq<R>
    decreases sorted.len(),
{
    if sorted.len() == 0 || sorted.last().spec_at_most(level) {
        sorted.push(level)
    } else {
        level_placed(sorted.drop_last(), level).push(sorted.last())
    }
}

/// Numbers in ascending order.
pub open spec fn levels_sorted<R: RealNumber>(levels: Seq<R>) -> Seq<R>
    decreases levels.len(),
{
    if levels.len() == 0 {
        Seq::empty()
    } else {
        level_placed(levels_sorted(levels.drop_last()), levels.last())
    }
}

/// Whether two neighbours of a sorted spectrum count as one level.
pub open spec fn degenerate<R: RealNumber>(levels: Seq<R>) -> bool {
    exists|i: int|
        0 <= i < levels_sorted(levels).len() - 1 && #[trigger] levels_sorted(
            levels,
        )[i].spec_same_level(levels_sorted(levels)[i + 1])
}

fn place_level<R: RealNumber>(sorted: &mut Vec<R>, level: R)
    ensures
        final(sorted)@ == level_placed(old(sorted)@, level),
{
    let ghost start = sorted@;
    let mut place: usize = sorted.len();
    assert(start.take(place as int) =~= start);
    assert(level_placed(start, level) =~= level_placed(start.take(place as int), level)
        + start.skip(place as int));
    while place > 0 && !sorted[place - 1].at_most(level)
        invariant
            place <= start.len(),
            sorted@ == start,
            level_placed(start, level) == level_placed(start.take(place as int), level)
                + start.skip(place as int),
        decreases place,
    {
        proof {
            assert(start.take(place as int).last() == start[place - 1]);
            assert(start.take(place as int).drop_last() =~= start.take(place - 1));
            assert(level_placed(start.take(place - 1), level).push(start[place - 1]) + start.skip(
                place as int,
            ) =~= level_placed(start.take(place - 1), level) + start.skip(place - 1));
        }
        place = place - 1;
    }
    sorted.insert(place, level);
    proof {
        if place > 0 {
            assert(start.take(place as int).last() == start[place - 1]);
        }
        assert(level_placed(start.take(place as int), level) =~= start.take(place as int).push(
            level,
        ));
        assert(sorted@ =~= start.take(place as int).push(level) + start.skip(place as int));
    }
}

/// Numbers in ascending order.
pub fn sort_levels<R: RealNumber>(levels: &Vec<R>) -> (sorted: Vec<R>)
    ensures
        sorted@ == levels_sorted(levels@),
{
    let mut sorted: Vec<R> = Vec::new();
    let mut next: usize = 0;
    assert(levels@.take(0) =~= Seq::empty());
    while next < levels.len()
        invariant
            next <= levels@.len(),
            sorted@ == levels_sorted(levels@.take(next as int)),
        decreases levels@.len() - next,
    {
        proof {
            assert(levels@.take(next + 1).drop_last() =~= levels@.take(next as int));
        }
        place_level(&mut sorted, levels[next]);
        next += 1;
    }
    assert(levels@.take(next as int) =~= levels@);
    sorted
}

fn check_degenerate<R: RealNumber>(levels: &Vec<R>) -> (answer: bool)
    ensures
        answer == degenerate(levels@),
{
    let sorted: Vec<R> = sort_levels(levels);
    let count: usize = sorted.len();
    let mut next: usize = 0;
    while next + 1 < count
        invariant
            count == sorted@.len(),
            next < count || count == 0,
            count == 0 ==> next == 0,
            sorted@ == levels_sorted(levels@),
            forall|i: int|
                0 <= i < next ==> !#[trigger] levels_sorted(levels@)[i].spec_same_level(
                    levels_sorted(levels@)[i + 1],
                ),
        decreases count - next,
    {
        if sorted[next].same_level(sorted[next + 1]) {
            assert(levels_sorted(levels@)[next as int].spec_same_level(
                levels_sorted(levels@)[next + 1],
            ));
            return true;
        }
        next += 1;
    }
    false
}

/// Vectors as sequences.
pub open spec fn vectors<S>(list: Seq<Vec<S>>) -> Seq<Seq<S>> {
    Seq::new(list.len(), |i: int| list[i]@)
}

/// Whether vectors form a square.
pub open spec fn square<S>(list: Seq<Seq<S>>, dimension: nat) -> bool {
    &&& list.len() == dimension
    &&& forall|i: int| 0 <= i < list.len() ==> (#[trigger] list[i]).len() == dimension
}

pub fn check_square<S>(list: &Vec<Vec<S>>, dimension: usize) -> (answer: bool)
    ensures
        answer == square(vectors(list@), dimension as nat),
{
    if list.len() != dimension {
        return false;
    }
    let mut next: usize = 0;
    while next < list.len()
        invariant
            next <= list@.len(),
            forall|i: int|
                0 <= i < next ==> (#[trigger] vectors(list@)[i]).len() == dimension,
        decreases list@.len() - next,
    {
        if list[next].len() != dimension {
            assert(vectors(list@)[next as int].len() != dimension);
            return false;
        }
        next += 1;
    }
    true
}

/// Images of the first vectors under an operator.
pub open spec fn images<O: LinearOperator>(
    operator: O,
    inputs: Seq<Seq<O::Value>>,
    count: nat,
) -> core::result::Result<Seq<Seq<O::Value>>, QmbedError>
    decreases count,
{
    if count == 0 {
        Ok(Seq::empty())
    } else {
        match images(operator, inputs, (count - 1) as nat) {
            Err(error) => Err(error),
            Ok(before) => match operator.spec_apply(inputs[count - 1]) {
                Err(error) => Err(error),
                Ok(image) => Ok(before.push(image)),
            },
        }
    }
}

/// Matrix elements of an observable between the levels of a spectrum: diagonal ones, squared
/// magnitudes, and sums of squared magnitudes by row.
pub struct ObservableModel<R> {
    pub diagonal: Seq<R>,
    pub squares: Seq<Seq<R>>,
    pub row_sums: Seq<R>,
}

/// Squared magnitudes of the matrix elements of a row.
pub open spec fn square_row<R: RealNumber, S: ComplexOver<R>>(
    vectors: Seq<Seq<S>>,
    images: Seq<Seq<S>>,
    row: int,
) -> Seq<R> {
    Seq::new(
        images.len(),
        |column: int| linear::inner_product(vectors[row], images[column]).spec_weight(),
    )
}

/// Matrix elements in the first rows.
pub open spec fn observable_rows<R: RealNumber, S: ComplexOver<R>>(
    vectors: Seq<Seq<S>>,
    images: Seq<Seq<S>>,
    count: nat,
) -> core::result::Result<ObservableModel<R>, QmbedError>
    decreases count,
{
    if count == 0 {
        Ok(
            ObservableModel {
                diagonal: Seq::empty(),
                squares: Seq::empty(),
                row_sums: Seq::empty(),
            },
        )
    } else {
        match observable_rows::<R, S>(vectors, images, (count - 1) as nat) {
            Err(error) => Err(error),
            Ok(before) => {
                let row = count - 1;
                let element = linear::inner_product(vectors[row], images[row]);
                let squares = square_row::<R, S>(vectors, images, row);
                if !element.spec_is_level() {
                    Err(
                        QmbedError::InvalidOptions(Reason::Text("diagonal-ensemble observable must be Hermitian")),
                    )
                } else {
                    Ok(
                        ObservableModel {
                            diagonal: before.diagonal.push(element.spec_real()),
                            squares: before.squares.push(squares),
                            row_sums: before.row_sums.push(
                                statistics::total(squares, squares.len()),
                            ),
                        },
                    )
                }
            },
        }
    }
}

/// Matrix elements of an observable between the levels of a spectrum.
pub open spec fn observable_model<R: RealNumber, O: LinearOperator>(
    operator: O,
    vectors: Seq<Seq<O::Value>>,
) -> core::result::Result<ObservableModel<R>, QmbedError> where O::Value: ComplexOver<R> {
    if operator.spec_rows() != vectors.len() || operator.spec_columns() != vectors.len() {
        Err(
            QmbedError::DimensionMismatch(
                Reason::Text("diagonal-ensemble observable and eigensystem do not match"),
            ),
        )
    } else {
        match images(operator, vectors, vectors.len()) {
            Err(error) => Err(error),
            Ok(list) => observable_rows::<R, O::Value>(vectors, list, vectors.len()),
        }
    }
}

/// Sum of `p_row |A|² p_column` over the first columns but the diagonal one, added to what is
/// already there.
pub open spec fn temporal_row<R: RealNumber>(
    start: R,
    probabilities: Seq<R>,
    squares: Seq<R>,
    row: int,
    count: nat,
) -> R
    decreases count,
{
    if count == 0 {
        start
    } else {
        let before = temporal_row(start, probabilities, squares, row, (count - 1) as nat);
        if row == count - 1 {
            before
        } else {
            before.spec_plus(
                probabilities[row].spec_times(squares[count - 1]).spec_times(
                    probabilities[count - 1],
                ),
            )
        }
    }
}

/// Variance in time over the first rows.
pub open spec fn temporal_variance<R: RealNumber>(
    probabilities: Seq<R>,
    squares: Seq<Seq<R>>,
    count: nat,
) -> R
    decreases count,
{
    if count == 0 {
        R::spec_zero()
    } else {
        temporal_row(
            temporal_variance(probabilities, squares, (count - 1) as nat),
            probabilities,
            squares[count - 1],
            count - 1,
            squares[count - 1].len(),
        )
    }
}

/// Statistics of one distribution over the levels of a spectrum.
pub struct DiagonalEnsembleColumn<R> {
    pub ensemble: DiagonalEnsemble<R>,
    pub diagonal_entropy: R,
    pub observable: Option<R>,
    pub temporal_fluctuation: Option<R>,
    pub quantum_fluctuation: Option<R>,
}

/// Statistics of one distribution over the levels of a spectrum.
pub struct ColumnModel<R> {
    pub ensemble: EnsembleModel<R>,
    pub diagonal_entropy: R,
    pub observable: Option<R>,
    pub temporal_fluctuation: Option<R>,
    pub quantum_fluctuation: Option<R>,
}

impl<R> View for DiagonalEnsembleColumn<R> {
    type V = ColumnModel<R>;

    open spec fn view(&self) -> ColumnModel<R> {
        ColumnModel {
            ensemble: self.ensemble@,
            diagonal_entropy: self.diagonal_entropy,
            observable: self.observable,
            temporal_fluctuation: self.temporal_fluctuation,
            quantum_fluctuation: self.quantum_fluctuation,
        }
    }
}

/// Statistics of one distribution, with those of an observable where there is one.
pub open spec fn column_model<R: RealNumber>(
    levels: Seq<R>,
    probabilities: Seq<R>,
    elements: Option<ObservableModel<R>>,
    alpha: R,
) -> core::result::Result<ColumnModel<R>, QmbedError> {
    match probability_ensemble(levels, probabilities) {
        Err(error) => Err(error),
        Ok(ensemble) => match statistics::ordered_entropy(ensemble.probabilities, alpha) {
            Err(error) => Err(error),
            Ok(entropy) => Ok(
                match elements {
                    None => ColumnModel {
                        ensemble,
                        diagonal_entropy: entropy,
                        observable: None,
                        temporal_fluctuation: None,
                        quantum_fluctuation: None,
                    },
                    Some(model) => {
                        let p = ensemble.probabilities;
                        let mean = statistics::weighted(model.diagonal, p, levels.len());
                        let temporal = temporal_variance(p, model.squares, levels.len());
                        let second = statistics::weighted(model.row_sums, p, levels.len());
                        let quantum = second.spec_minus(temporal).spec_minus(
                            mean.spec_times(mean),
                        );
                        ColumnModel {
                            ensemble,
                            diagonal_entropy: entropy,
                            observable: Some(mean),
                            temporal_fluctuation: Some(statistics::floored(temporal).spec_root()),
                            quantum_fluctuation: Some(statistics::floored(quantum).spec_root()),
                        }
                    },
                },
            ),
        },
    }
}

/// Statistics of the first distributions.
pub open spec fn columns_model<R: RealNumber>(
    levels: Seq<R>,
    columns: Seq<Seq<R>>,
    elements: Option<ObservableModel<R>>,
    alpha: R,
    count: nat,
) -> core::result::Result<Seq<ColumnModel<R>>, QmbedError>
    decreases count,
{
    if count == 0 {
        Ok(Seq::empty())
    } else {
        match columns_model(levels, columns, elements, alpha, (count - 1) as nat) {
            Err(error) => Err(error),
            Ok(before) => match column_model(levels, columns[count - 1], elements, alpha) {
                Err(error) => Err(error),
                Ok(column) => Ok(before.push(column)),
            },
        }
    }
}

/// Statistics of distributions in a shared eigensystem.
pub open spec fn analysis<R: RealNumber, O: LinearOperator>(
    levels: Seq<R>,
    vectors: Seq<Seq<O::Value>>,
    columns: Seq<Seq<R>>,
    observable: Option<O>,
    alpha: R,
) -> core::result::Result<Seq<ColumnModel<R>>, QmbedError> where O::Value: ComplexOver<R> {
    if degenerate(levels) {
        Err(
            QmbedError::InvalidOptions(
                Reason::Text("diagonal-ensemble formulas require a nondegenerate spectrum"),
            ),
        )
    } else if !square(vectors, levels.len()) {
        Err(QmbedError::DimensionMismatch(Reason::Text("diagonal-ensemble eigensystem must be square")))
    } else if columns.len() == 0 {
        Err(
            QmbedError::InvalidOptions(
                Reason::Text("diagonal-ensemble analysis needs at least one probability column"),
            ),
        )
    } else {
        match observable {
            None => columns_model(levels, columns, None, alpha, columns.len()),
            Some(operator) => match observable_model::<R, O>(operator, vectors) {
                Err(error) => Err(error),
                Ok(elements) => columns_model(
                    levels,
                    columns,
                    Some(elements),
                    alpha,
                    columns.len(),
                ),
            },
        }
    }
}

/// Matrix elements of an observable between the levels of a spectrum.
struct ObservableElements<R> {
    diagonal: Vec<R>,
    squares: Vec<Vec<R>>,
    row_sums: Vec<R>,
}

impl<R> View for ObservableElements<R> {
    type V = ObservableModel<R>;

    closed spec fn view(&self) -> ObservableModel<R> {
        ObservableModel {
            diagonal: self.diagonal@,
            squares: vectors(self.squares@),
            row_sums: self.row_sums@,
        }
    }
}

spec fn elements_view<R>(elements: Option<ObservableElements<R>>) -> Option<ObservableModel<R>> {
    match elements {
        Some(found) => Some(found@),
        None => None,
    }
}

/// Lists of matrix elements that fit a spectrum of the given size.
pub open spec fn elements_fit<R>(model: ObservableModel<R>, dimension: nat) -> bool {
    &&& model.diagonal.len() == dimension
    &&& model.row_sums.len() == dimension
    &&& square(model.squares, dimension)
}

proof fn lemma_images_fail<O: LinearOperator>(
    operator: O,
    inputs: Seq<Seq<O::Value>>,
    count: nat,
    later: nat,
)
    requires
        count <= later,
        images(operator, inputs, count) is Err,
    ensures
        images(operator, inputs, later) == images(operator, inputs, count),
    decreases later,
{
    if count < later {
        lemma_images_fail(operator, inputs, count, (later - 1) as nat);
    }
}

proof fn lemma_rows_fail<R: RealNumber, S: ComplexOver<R>>(
    vectors: Seq<Seq<S>>,
    images: Seq<Seq<S>>,
    count: nat,
    later: nat,
)
    requires
        count <= later,
        observable_rows::<R, S>(vectors, images, count) is Err,
    ensures
        observable_rows::<R, S>(vectors, images, later) == observable_rows::<R, S>(
            vectors,
            images,
            count,
        ),
    decreases later,
{
    if count < later {
        lemma_rows_fail::<R, S>(vectors, images, count, (later - 1) as nat);
    }
}

proof fn lemma_columns_fail<R: RealNumber>(
    levels: Seq<R>,
    columns: Seq<Seq<R>>,
    elements: Option<ObservableModel<R>>,
    alpha: R,
    count: nat,
    later: nat,
)
    requires
        count <= later,
        columns_model(levels, columns, elements, alpha, count) is Err,
    ensures
        columns_model(levels, columns, elements, alpha, later) == columns_model(
            levels,
            columns,
            elements,
            alpha,
            count,
        ),
    decreases later,
{
    if count < later {
        lemma_columns_fail(levels, columns, elements, alpha, count, (later - 1) as nat);
    }
}

/// Images of vectors under an operator.
fn apply_all<O: LinearOperator>(operator: &O, inputs: &Vec<Vec<O::Value>>) -> (result: Result<
    Vec<Vec<O::Value>>,
>)
    requires
        operator.wf(),
        operator.spec_rows() == operator.spec_columns(),
        square(vectors(inputs@), operator.spec_columns() as nat),
    ensures
        match (result, images(*operator, vectors(inputs@), inputs@.len())) {
            (Ok(list), Ok(stated)) => vectors(list@) == stated && square(
                vectors(list@),
                operator.spec_rows() as nat,
            ),
            (Err(error), Err(stated)) => error == stated,
            _ => false,
        },
{
    let ghost given = vectors(inputs@);
    let mut list: Vec<Vec<O::Value>> = Vec::new();
    assert(vectors(list@) =~= Seq::empty());
    let mut next: usize = 0;
    while next < inputs.len()
        invariant
            next <= inputs@.len(),
            operator.wf(),
            operator.spec_rows() == operator.spec_columns(),
            given == vectors(inputs@),
            square(given, operator.spec_columns() as nat),
            list@.len() == next,
            images(*operator, given, next as nat) == Ok::<Seq<Seq<O::Value>>, QmbedError>(
                vectors(list@),
            ),
            forall|i: int|
                0 <= i < list@.len() ==> (#[trigger] vectors(list@)[i]).len()
                    == operator.spec_rows(),
        decreases inputs@.len() - next,
    {
        let ghost before = vectors(list@);
        assert(given[next as int].len() == operator.spec_columns());
        let image: Vec<O::Value> = match operator.apply(&inputs[next]) {
            Ok(image) => image,
            Err(error) => {
                proof {
                    lemma_images_fail(*operator, given, (next + 1) as nat, inputs@.len());
                }
                return Err(error);
            },
        };
        proof {
            operator.images_fit(inputs@[next as int]@);
        }
        let ghost added = image@;
        list.push(image);
        next += 1;
        proof {
            assert(vectors(list@) =~= before.push(added));
            assert forall|i: int| 0 <= i < list@.len() implies (#[trigger] vectors(
                list@,
            )[i]).len() == operator.spec_rows() by {
                if i < before.len() {
                    assert(before[i].len() == operator.spec_rows());
                }
            }
        }
    }
    Ok(list)
}

/// Matrix elements of an observable between the levels of a spectrum.
fn find_elements<R: RealNumber, O: LinearOperator>(operator: &O, eigenvectors: &Vec<Vec<O::Value>>) -> (result: Result<
    ObservableElements<R>,
>) where O::Value: ComplexOver<R>
    requires
        operator.wf(),
        square(vectors(eigenvectors@), eigenvectors@.len()),
    ensures
        match (result, observable_model::<R, O>(*operator, vectors(eigenvectors@))) {
            (Ok(elements), Ok(model)) => elements@ == model && elements_fit(
                model,
                eigenvectors@.len(),
            ),
            (Err(error), Err(stated)) => error == stated,
            _ => false,
        },
{
    let ghost given = vectors(eigenvectors@);
    let dimension: usize = eigenvectors.len();
    let (rows, columns) = operator.shape();
    if rows != dimension || columns != dimension {
        return Err(
            QmbedError::DimensionMismatch(
                Reason::Text("diagonal-ensemble observable and eigensystem do not match"),
            ),
        );
    }
    let applied: Vec<Vec<O::Value>> = match apply_all(operator, eigenvectors) {
        Ok(applied) => applied,
        Err(error) => {
            return Err(error);
        },
    };
    let ghost list = vectors(applied@);
    let mut diagonal: Vec<R> = Vec::new();
    let mut squares: Vec<Vec<R>> = Vec::new();
    let mut row_sums: Vec<R> = Vec::new();
    assert(vectors(squares@) =~= Seq::empty());
    assert(diagonal@ =~= Seq::empty());
    assert(row_sums@ =~= Seq::empty());
    let mut row: usize = 0;
    while row < dimension
        invariant
            row <= dimension,
            dimension == eigenvectors@.len(),
            given == vectors(eigenvectors@),
            list == vectors(applied@),
            square(given, dimension as nat),
            square(list, dimension as nat),
            diagonal@.len() == row,
            row_sums@.len() == row,
            squares@.len() == row,
            forall|i: int|
                0 <= i < squares@.len() ==> (#[trigger] vectors(squares@)[i]).len() == dimension,
            observable_rows::<R, O::Value>(given, list, row as nat) == Ok::<
                ObservableModel<R>,
                QmbedError,
            >(
                ObservableModel {
                    diagonal: diagonal@,
                    squares: vectors(squares@),
                    row_sums: row_sums@,
                },
            ),
            observable_model::<R, O>(*operator, given) == observable_rows::<R, O::Value>(
                given,
                list,
                dimension as nat,
            ),
        decreases dimension - row,
    {
        proof {
            assert(given[row as int].len() == dimension);
            assert(list[row as int].len() == dimension);
        }
        let element: O::Value = dotc(&eigenvectors[row], &applied[row]);
        if !element.is_level() {
            proof {
                lemma_rows_fail::<R, O::Value>(given, list, (row + 1) as nat, dimension as nat);
            }
            return Err(
                QmbedError::InvalidOptions(Reason::Text("diagonal-ensemble observable must be Hermitian")),
            );
        }
        let ghost stated = square_row::<R, O::Value>(given, list, row as int);
        let mut line: Vec<R> = Vec::new();
        let mut column: usize = 0;
        while column < dimension
            invariant
                column <= dimension,
                row < dimension,
                dimension == eigenvectors@.len(),
                given == vectors(eigenvectors@),
                list == vectors(applied@),
                square(given, dimension as nat),
                square(list, dimension as nat),
                stated == square_row::<R, O::Value>(given, list, row as int),
                line@ == stated.take(column as int),
            decreases dimension - column,
        {
            proof {
                assert(given[row as int].len() == dimension);
                assert(list[column as int].len() == dimension);
            }
            line.push(dotc(&eigenvectors[row], &applied[column]).weight());
            column += 1;
            assert(line@ =~= stated.take(column as int));
        }
        assert(line@ =~= stated);
        let ghost before = vectors(squares@);
        diagonal.push(element.real_number());
        row_sums.push(statistics::sum_of(&line));
        squares.push(line);
        row += 1;
        proof {
            assert(vectors(squares@) =~= before.push(stated));
            assert forall|i: int| 0 <= i < squares@.len() implies (#[trigger] vectors(
                squares@,
            )[i]).len() == dimension by {
                if i < before.len() {
                    assert(before[i].len() == dimension);
                }
            }
        }
    }
    Ok(ObservableElements { diagonal, squares, row_sums })
}

/// Variance in time.
fn find_temporal_variance<R: RealNumber>(probabilities: &Vec<R>, squares: &Vec<Vec<R>>) -> (variance: R)
    requires
        square(vectors(squares@), probabilities@.len()),
    ensures
        variance == temporal_variance(probabilities@, vectors(squares@), squares@.len()),
{
    let mut variance: R = R::zero();
    let mut row: usize = 0;
    while row < squares.len()
        invariant
            row <= squares@.len(),
            square(vectors(squares@), probabilities@.len()),
            variance == temporal_variance(probabilities@, vectors(squares@), row as nat),
        decreases squares@.len() - row,
    {
        let ghost start = variance;
        assert(vectors(squares@)[row as int].len() == probabilities@.len());
        let mut column: usize = 0;
        while column < squares[row].len()
            invariant
                row < squares@.len(),
                squares@.len() == probabilities@.len(),
                column <= squares@[row as int]@.len(),
                squares@[row as int]@.len() == probabilities@.len(),
                variance == temporal_row(
                    start,
                    probabilities@,
                    squares@[row as int]@,
                    row as int,
                    column as nat,
                ),
            decreases squares@[row as int]@.len() - column,
        {
            if row != column {
                variance = variance.plus(
                    probabilities[row].times(squares[row][column]).times(probabilities[column]),
                );
            }
            column += 1;
        }
        row += 1;
    }
    variance
}

/// Statistics of one distribution, with those of an observable where there is one.
fn find_column<R: RealNumber>(
    eigenvalues: &Vec<R>,
    probabilities: &Vec<R>,
    elements: Option<&ObservableElements<R>>,
    alpha: R,
) -> (result: Result<DiagonalEnsembleColumn<R>>)
    requires
        match elements {
            Some(found) => elements_fit(found@, eigenvalues@.len()),
            None => true,
        },
    ensures
        match (
            result,
            column_model(
                eigenvalues@,
                probabilities@,
                match elements {
                    Some(found) => Some(found@),
                    None => None,
                },
                alpha,
            ),
        ) {
            (Ok(column), Ok(model)) => column@ == model,
            (Err(error), Err(stated)) => error == stated,
            _ => false,
        },
{
    let ensemble: DiagonalEnsemble<R> = match diagonal_ensemble_from_probabilities(
        eigenvalues,
        probabilities,
    ) {
        Ok(ensemble) => ensemble,
        Err(error) => {
            return Err(error);
        },
    };
    let diagonal_entropy: R = match distribution_entropy(&ensemble.probabilities, alpha) {
        Ok(entropy) => entropy,
        Err(error) => {
            return Err(error);
        },
    };
    match elements {
        None => Ok(
            DiagonalEnsembleColumn {
                ensemble,
                diagonal_entropy,
                observable: None,
                temporal_fluctuation: None,
                quantum_fluctuation: None,
            },
        ),
        Some(found) => {
            let mean: R = statistics::weighted_sum(&found.diagonal, &ensemble.probabilities);
            let temporal: R = find_temporal_variance(&ensemble.probabilities, &found.squares);
            let second: R = statistics::weighted_sum(&found.row_sums, &ensemble.probabilities);
            let quantum: R = second.minus(temporal).minus(mean.times(mean));
            Ok(
                DiagonalEnsembleColumn {
                    ensemble,
                    diagonal_entropy,
                    observable: Some(mean),
                    temporal_fluctuation: Some(statistics::floor_at_zero(temporal).root()),
                    quantum_fluctuation: Some(statistics::floor_at_zero(quantum).root()),
                },
            )
        },
    }
}

/// Views of a list of columns.
pub open spec fn column_views<R>(columns: Seq<DiagonalEnsembleColumn<R>>) -> Seq<ColumnModel<R>> {
    Seq::new(columns.len(), |i: int| columns[i]@)
}

/// Statistics of one or more distributions in a shared eigensystem, with those of an
/// observable where there is one. The observable is only applied to vectors.
pub fn analyze_diagonal_ensemble<R: RealNumber, O: LinearOperator>(
    eigenvalues: &Vec<R>,
    eigenvectors: &Vec<Vec<O::Value>>,
    probability_columns: &Vec<Vec<R>>,
    observable: Option<&O>,
    alpha: R,
) -> (result: Result<Vec<DiagonalEnsembleColumn<R>>>) where O::Value: ComplexOver<R>
    requires
        observable matches Some(operator) ==> operator.wf(),
    ensures
        match (
            result,
            analysis(
                eigenvalues@,
                vectors(eigenvectors@),
                vectors(probability_columns@),
                match observable {
                    Some(operator) => Some(*operator),
                    None => None,
                },
                alpha,
            ),
        ) {
            (Ok(columns), Ok(models)) => column_views(columns@) == models,
            (Err(error), Err(stated)) => error == stated,
            _ => false,
        },
{
    let dimension: usize = eigenvalues.len();
    if check_degenerate(eigenvalues) {
        return Err(
            QmbedError::InvalidOptions(
                Reason::Text("diagonal-ensemble formulas require a nondegenerate spectrum"),
            ),
        );
    }
    if !check_square(eigenvectors, dimension) {
        return Err(QmbedError::DimensionMismatch(Reason::Text("diagonal-ensemble eigensystem must be square")));
    }
    if probability_columns.len() == 0 {
        return Err(
            QmbedError::InvalidOptions(
                Reason::Text("diagonal-ensemble analysis needs at least one probability column"),
            ),
        );
    }
    let elements: Option<ObservableElements<R>> = match observable {
        None => None,
        Some(operator) => match find_elements::<R, O>(operator, eigenvectors) {
            Ok(elements) => Some(elements),
            Err(error) => {
                return Err(error);
            },
        },
    };
    find_columns(eigenvalues, probability_columns, elements, alpha)
}

/// Statistics of distributions.
fn find_columns<R: RealNumber>(
    eigenvalues: &Vec<R>,
    probability_columns: &Vec<Vec<R>>,
    elements: Option<ObservableElements<R>>,
    alpha: R,
) -> (result: Result<Vec<DiagonalEnsembleColumn<R>>>)
    requires
        elements matches Some(found) ==> elements_fit(found@, eigenvalues@.len()),
    ensures
        match (
            result,
            columns_model(
                eigenvalues@,
                vectors(probability_columns@),
                elements_view(elements),
                alpha,
                probability_columns@.len(),
            ),
        ) {
            (Ok(columns), Ok(models)) => column_views(columns@) == models,
            (Err(error), Err(stated)) => error == stated,
            _ => false,
        },
{
    let ghost given = vectors(probability_columns@);
    let ghost model = elements_view(elements);
    let mut columns: Vec<DiagonalEnsembleColumn<R>> = Vec::new();
    assert(column_views(columns@) =~= Seq::empty());
    let mut next: usize = 0;
    while next < probability_columns.len()
        invariant
            next <= probability_columns@.len(),
            given == vectors(probability_columns@),
            elements matches Some(found) ==> elements_fit(found@, eigenvalues@.len()),
            model == elements_view(elements),
            columns_model(eigenvalues@, given, model, alpha, next as nat) == Ok::<
                Seq<ColumnModel<R>>,
                QmbedError,
            >(column_views(columns@)),
        decreases probability_columns@.len() - next,
    {
        let ghost before = column_views(columns@);
        match find_column(eigenvalues, &probability_columns[next], elements.as_ref(), alpha) {
            Ok(column) => {
                let ghost added = column@;
                columns.push(column);
                assert(column_views(columns@) =~= before.push(added));
            },
            Err(error) => {
                proof {
                    lemma_columns_fail(
                        eigenvalues@,
                        given,
                        model,
                        alpha,
                        (next + 1) as nat,
                        probability_columns@.len(),
                    );
                }
                return Err(error);
            },
        }
        next += 1;
    }
    Ok(columns)
}

/// Whether a norm or a trace is finite and not negligible.
pub open spec fn sound<R: RealNumber>(value: R) -> bool {
    value.spec_is_finite() && !value.spec_is_negligible()
}

/// Probabilities of the vectors of an eigensystem in a state.
pub open spec fn overlap_weights<R: RealNumber, S: ComplexOver<R>>(
    eigenvectors: Seq<Seq<S>>,
    initial: Seq<S>,
) -> Seq<R> {
    let norm = linear::inner_product(initial, initial).spec_real();
    Seq::new(
        eigenvectors.len(),
        |i: int| linear::inner_product(eigenvectors[i], initial).spec_weight().spec_over(norm),
    )
}

/// Whether every vector of a list has the given length.
pub open spec fn all_of_length<S>(list: Seq<Seq<S>>, length: nat) -> bool {
    forall|i: int| 0 <= i < list.len() ==> (#[trigger] list[i]).len() == length
}

pub fn check_lengths<S>(list: &Vec<Vec<S>>, length: usize) -> (answer: bool)
    ensures
        answer == all_of_length(vectors(list@), length as nat),
{
    let mut next: usize = 0;
    while next < list.len()
        invariant
            next <= list@.len(),
            forall|i: int| 0 <= i < next ==> (#[trigger] vectors(list@)[i]).len() == length,
        decreases list@.len() - next,
    {
        if list[next].len() != length {
            assert(vectors(list@)[next as int].len() != length);
            return false;
        }
        next += 1;
    }
    true
}

/// The diagonal ensemble of a pure state.
pub open spec fn state_ensemble<R: RealNumber, S: ComplexOver<R>>(
    levels: Seq<R>,
    eigenvectors: Seq<Seq<S>>,
    initial: Seq<S>,
) -> core::result::Result<EnsembleModel<R>, QmbedError> {
    if levels.len() != eigenvectors.len() || !all_of_length(eigenvectors, initial.len()) {
        Err(
            QmbedError::DimensionMismatch(Reason::Text("eigensystem and initial state dimensions do not match")),
        )
    } else if !sound::<R>(linear::inner_product(initial, initial).spec_real()) {
        Err(QmbedError::InvalidOptions(Reason::Text("initial state must have positive finite norm")))
    } else {
        summary(levels, overlap_weights::<R, S>(eigenvectors, initial))
    }
}

/// The diagonal ensemble of a pure state.
pub fn diagonal_ensemble<R: RealNumber, S: ComplexOver<R>>(
    eigenvalues: &Vec<R>,
    eigenvectors: &Vec<Vec<S>>,
    initial: &Vec<S>,
) -> (result: Result<DiagonalEnsemble<R>>)
    ensures
        ensemble_is(result, state_ensemble(eigenvalues@, vectors(eigenvectors@), initial@)),
{
    if eigenvalues.len() != eigenvectors.len() || !check_lengths(eigenvectors, initial.len()) {
        return Err(
            QmbedError::DimensionMismatch(Reason::Text("eigensystem and initial state dimensions do not match")),
        );
    }
    let norm: R = dotc(initial, initial).real_number();
    if !norm.is_finite() || norm.is_negligible() {
        return Err(QmbedError::InvalidOptions(Reason::Text("initial state must have positive finite norm")));
    }
    let ghost stated = overlap_weights::<R, S>(vectors(eigenvectors@), initial@);
    let mut weights: Vec<R> = Vec::new();
    let mut next: usize = 0;
    while next < eigenvectors.len()
        invariant
            next <= eigenvectors@.len(),
            all_of_length(vectors(eigenvectors@), initial@.len()),
            norm == linear::inner_product(initial@, initial@).spec_real(),
            stated == overlap_weights::<R, S>(vectors(eigenvectors@), initial@),
            weights@ == stated.take(next as int),
        decreases eigenvectors@.len() - next,
    {
        assert(vectors(eigenvectors@)[next as int].len() == initial@.len());
        weights.push(dotc(&eigenvectors[next], initial).weight().over(norm));
        next += 1;
        assert(weights@ =~= stated.take(next as int));
    }
    assert(weights@ =~= stated);
    summarize_diagonal_probabilities(eigenvalues, &weights)
}

/// Sum of the first diagonal elements of a matrix in row order.
pub open spec fn trace<S: Scalar>(matrix: Seq<S>, dimension: nat, count: nat) -> S
    decreases count,
{
    if count == 0 {
        S::spec_zero()
    } else {
        trace(matrix, dimension, (count - 1) as nat).spec_plus(
            matrix[(count - 1) * dimension + (count - 1)],
        )
    }
}

proof fn lemma_place(row: int, column: int, size: int)
    requires
        0 <= row < size,
        0 <= column < size,
    ensures
        0 <= row * size <= row * size + column < size * size,
{
    assert(0 <= row * size) by (nonlinear_arith)
        requires
            0 <= row,
            0 <= size,
    ;
    assert(row * size + column < size * size) by (nonlinear_arith)
        requires
            0 <= row < size,
            0 <= column < size,
    ;
}

pub fn find_trace<S: Scalar>(matrix: &Vec<S>, dimension: usize) -> (sum: S)
    requires
        matrix@.len() == dimension * dimension,
    ensures
        sum == trace(matrix@, dimension as nat, dimension as nat),
{
    let given: usize = matrix.len();
    let mut sum: S = S::zero();
    let mut next: usize = 0;
    while next < dimension
        invariant
            next <= dimension,
            given == matrix@.len(),
            given == dimension * dimension,
            sum == trace(matrix@, dimension as nat, next as nat),
        decreases dimension - next,
    {
        proof {
            lemma_place(next as int, next as int, dimension as int);
        }
        sum = sum.plus(&matrix[next * dimension + next]);
        next += 1;
    }
    sum
}

/// Whether a trace is real, finite and not negligible.
pub open spec fn trace_sound<R: RealNumber, S: ComplexOver<R>>(value: S) -> bool {
    value.spec_is_clear() && sound::<R>(value.spec_real())
}

pub fn check_trace<R: RealNumber, S: ComplexOver<R>>(value: S) -> (answer: bool)
    ensures
        answer == trace_sound::<R, S>(value),
{
    value.is_clear() && value.real_number().is_finite() && !value.real_number().is_negligible()
}

/// Sum of the first terms of the expectation of a matrix in a vector, in row order.
pub open spec fn sandwich<S: Scalar>(
    matrix: Seq<S>,
    vector: Seq<S>,
    dimension: nat,
    count: nat,
) -> S
    decreases count,
{
    if count == 0 {
        S::spec_zero()
    } else {
        let row = (count - 1) / dimension as int;
        let column = (count - 1) % dimension as int;
        sandwich(matrix, vector, dimension, (count - 1) as nat).spec_plus(
            vector[row].spec_conjugate().spec_times(matrix[count - 1]).spec_times(vector[column]),
        )
    }
}

fn find_sandwich<S: Scalar>(matrix: &Vec<S>, vector: &Vec<S>) -> (sum: S)
    requires
        matrix@.len() == vector@.len() * vector@.len(),
    ensures
        sum == sandwich(matrix@, vector@, vector@.len(), matrix@.len()),
{
    let dimension: usize = vector.len();
    let mut sum: S = S::zero();
    let mut next: usize = 0;
    while next < matrix.len()
        invariant
            next <= matrix@.len(),
            dimension == vector@.len(),
            matrix@.len() == dimension * dimension,
            sum == sandwich(matrix@, vector@, dimension as nat, next as nat),
        decreases matrix@.len() - next,
    {
        proof {
            assert(dimension > 0) by (nonlinear_arith)
                requires
                    0 <= next < dimension * dimension,
                    dimension >= 0,
            ;
            vstd::arithmetic::div_mod::lemma_multiply_divide_lt(
                next as int,
                dimension as int,
                dimension as int,
            );
            vstd::arithmetic::div_mod::lemma_mod_bound(next as int, dimension as int);
        }
        let row: usize = next / dimension;
        let column: usize = next % dimension;
        sum = sum.plus(&vector[row].conjugate().times(&matrix[next]).times(&vector[column]));
        next += 1;
    }
    sum
}

/// Probabilities of the first vectors of an eigensystem in a mixed state.
pub open spec fn density_weights<R: RealNumber, S: ComplexOver<R>>(
    eigenvectors: Seq<Seq<S>>,
    density: Seq<S>,
    whole: R,
    count: nat,
) -> core::result::Result<Seq<R>, QmbedError>
    decreases count,
{
    if count == 0 {
        Ok(Seq::empty())
    } else {
        match density_weights::<R, S>(eigenvectors, density, whole, (count - 1) as nat) {
            Err(error) => Err(error),
            Ok(before) => {
                let value = sandwich(
                    density,
                    eigenvectors[count - 1],
                    eigenvectors[count - 1].len(),
                    density.len(),
                );
                if !value.spec_is_clear() || value.spec_real().spec_is_clearly_negative() {
                    Err(
                        QmbedError::InvalidOptions(
                            Reason::Text("initial density is not positive in the supplied eigenbasis"),
                        ),
                    )
                } else {
                    Ok(before.push(statistics::floored(value.spec_real()).spec_over(whole)))
                }
            },
        }
    }
}

proof fn lemma_density_weights_fail<R: RealNumber, S: ComplexOver<R>>(
    eigenvectors: Seq<Seq<S>>,
    density: Seq<S>,
    whole: R,
    count: nat,
    later: nat,
)
    requires
        count <= later,
        density_weights::<R, S>(eigenvectors, density, whole, count) is Err,
    ensures
        density_weights::<R, S>(eigenvectors, density, whole, later) == density_weights::<R, S>(
            eigenvectors,
            density,
            whole,
            count,
        ),
    decreases later,
{
    if count < later {
        lemma_density_weights_fail::<R, S>(
            eigenvectors,
            density,
            whole,
            count,
            (later - 1) as nat,
        );
    }
}

/// The diagonal ensemble of a mixed state.
pub open spec fn mixed_ensemble<R: RealNumber, S: ComplexOver<R>>(
    levels: Seq<R>,
    eigenvectors: Seq<Seq<S>>,
    density: Seq<S>,
) -> core::result::Result<EnsembleModel<R>, QmbedError> {
    let whole = trace(density, levels.len(), levels.len());
    if !square(eigenvectors, levels.len()) || density.len() != levels.len() * levels.len() {
        Err(
            QmbedError::DimensionMismatch(
                Reason::Text("eigensystem and initial density dimensions do not match"),
            ),
        )
    } else if !trace_sound::<R, S>(whole) {
        Err(QmbedError::InvalidOptions(Reason::Text("initial density must have a positive real trace")))
    } else {
        match density_weights::<R, S>(
            eigenvectors,
            density,
            whole.spec_real(),
            eigenvectors.len(),
        ) {
            Err(error) => Err(error),
            Ok(weights) => summary(levels, weights),
        }
    }
}

/// Whether a list has as many entries as a square matrix.
pub fn fills_square<S>(matrix: &Vec<S>, dimension: usize) -> (answer: bool)
    ensures
        answer == (matrix@.len() == dimension * dimension),
{
    let given: usize = matrix.len();
    match dimension.checked_mul(dimension) {
        Some(size) => given == size,
        None => false,
    }
}

/// The diagonal ensemble of a mixed state.
pub fn diagonal_ensemble_density<R: RealNumber, S: ComplexOver<R>>(
    eigenvalues: &Vec<R>,
    eigenvectors: &Vec<Vec<S>>,
    initial_density: &Vec<S>,
) -> (result: Result<DiagonalEnsemble<R>>)
    ensures
        ensemble_is(
            result,
            mixed_ensemble(eigenvalues@, vectors(eigenvectors@), initial_density@),
        ),
{
    let dimension: usize = eigenvalues.len();
    let ghost given = vectors(eigenvectors@);
    if !check_square(eigenvectors, dimension) || !fills_square(initial_density, dimension) {
        return Err(
            QmbedError::DimensionMismatch(
                Reason::Text("eigensystem and initial density dimensions do not match"),
            ),
        );
    }
    let whole: S = find_trace(initial_density, dimension);
    if !check_trace::<R, S>(whole) {
        return Err(QmbedError::InvalidOptions(Reason::Text("initial density must have a positive real trace")));
    }
    let divisor: R = whole.real_number();
    let mut weights: Vec<R> = Vec::new();
    let mut next: usize = 0;
    while next < eigenvectors.len()
        invariant
            next <= eigenvectors@.len(),
            given == vectors(eigenvectors@),
            dimension == eigenvalues@.len(),
            square(given, dimension as nat),
            initial_density@.len() == dimension * dimension,
            weights@.len() == next,
            trace_sound::<R, S>(whole),
            whole == trace(initial_density@, dimension as nat, dimension as nat),
            divisor == whole.spec_real(),
            density_weights::<R, S>(given, initial_density@, divisor, next as nat) == Ok::<
                Seq<R>,
                QmbedError,
            >(weights@),
        decreases eigenvectors@.len() - next,
    {
        assert(given[next as int].len() == dimension);
        let value: S = find_sandwich(initial_density, &eigenvectors[next]);
        if !value.is_clear() || value.real_number().is_clearly_negative() {
            proof {
                lemma_density_weights_fail::<R, S>(
                    given,
                    initial_density@,
                    divisor,
                    (next + 1) as nat,
                    given.len(),
                );
            }
            return Err(
                QmbedError::InvalidOptions(
                    Reason::Text("initial density is not positive in the supplied eigenbasis"),
                ),
            );
        }
        weights.push(statistics::floor_at_zero(value.real_number()).over(divisor));
        next += 1;
    }
    summarize_diagonal_probabilities(eigenvalues, &weights)
}

/// Element of the first weighted projectors on some vectors.
pub open spec fn mixture_element<R: RealNumber, S: ComplexOver<R>>(
    eigenvectors: Seq<Seq<S>>,
    probabilities: Seq<R>,
    row: int,
    column: int,
    count: nat,
) -> S
    decreases count,
{
    if count == 0 {
        S::spec_zero()
    } else {
        let vector = eigenvectors[count - 1];
        mixture_element(eigenvectors, probabilities, row, column, (count - 1) as nat).spec_plus(
            S::spec_from_number(probabilities[count - 1]).spec_times(vector[row]).spec_times(
                vector[column].spec_conjugate(),
            ),
        )
    }
}

/// Sum of weighted projectors on vectors, in row order.
pub open spec fn mixed_projectors<R: RealNumber, S: ComplexOver<R>>(
    eigenvectors: Seq<Seq<S>>,
    weights: Seq<R>,
) -> Seq<S> {
    let dimension = eigenvectors.len();
    Seq::new(
        dimension * dimension,
        |i: int|
            mixture_element(
                eigenvectors,
                weights,
                i / dimension as int,
                i % dimension as int,
                dimension,
            ),
    )
}

/// Density matrix of weighted vectors in row order.
pub open spec fn mixture<R: RealNumber, S: ComplexOver<R>>(
    eigenvectors: Seq<Seq<S>>,
    probabilities: Seq<R>,
) -> core::result::Result<Seq<S>, QmbedError> {
    let dimension = eigenvectors.len();
    if probabilities.len() != dimension || !all_of_length(eigenvectors, dimension) {
        Err(
            QmbedError::DimensionMismatch(
                Reason::Text("diagonal density probabilities and eigenvectors do not match"),
            ),
        )
    } else if !all_nonnegative(probabilities) {
        Err(
            QmbedError::InvalidOptions(
                Reason::Text("diagonal density probabilities must be finite and nonnegative"),
            ),
        )
    } else {
        Ok(mixed_projectors(eigenvectors, probabilities))
    }
}

/// Sum of weighted projectors on vectors, in row order.
pub fn mix_projectors<R: RealNumber, S: ComplexOver<R>>(
    eigenvectors: &Vec<Vec<S>>,
    weights: &Vec<R>,
) -> (density: Vec<S>)
    requires
        eigenvectors@.len() * eigenvectors@.len() <= usize::MAX,
        weights@.len() == eigenvectors@.len(),
        all_of_length(vectors(eigenvectors@), eigenvectors@.len()),
    ensures
        density@ == mixed_projectors(vectors(eigenvectors@), weights@),
{
    let ghost given = vectors(eigenvectors@);
    let dimension: usize = eigenvectors.len();
    let ghost stated = mixed_projectors(given, weights@);
    let size: usize = dimension * dimension;
    let mut density: Vec<S> = Vec::new();
    let mut place: usize = 0;
    while place < size
        invariant
            place <= size,
            size == dimension * dimension,
            dimension == eigenvectors@.len(),
            given == vectors(eigenvectors@),
            weights@.len() == dimension,
            all_of_length(given, dimension as nat),
            stated == mixed_projectors(given, weights@),
            density@ == stated.take(place as int),
        decreases size - place,
    {
        proof {
            assert(dimension > 0) by (nonlinear_arith)
                requires
                    0 <= place < dimension * dimension,
                    dimension >= 0,
            ;
            vstd::arithmetic::div_mod::lemma_multiply_divide_lt(
                place as int,
                dimension as int,
                dimension as int,
            );
            vstd::arithmetic::div_mod::lemma_mod_bound(place as int, dimension as int);
        }
        let row: usize = place / dimension;
        let column: usize = place % dimension;
        let mut sum: S = S::zero();
        let mut next: usize = 0;
        while next < dimension
            invariant
                next <= dimension,
                row < dimension,
                column < dimension,
                dimension == eigenvectors@.len(),
                given == vectors(eigenvectors@),
                weights@.len() == dimension,
                all_of_length(given, dimension as nat),
                sum == mixture_element(
                    given,
                    weights@,
                    row as int,
                    column as int,
                    next as nat,
                ),
            decreases dimension - next,
        {
            assert(given[next as int].len() == dimension);
            let vector: &Vec<S> = &eigenvectors[next];
            sum = sum.plus(
                &S::from_number(weights[next]).times(&vector[row]).times(
                    &vector[column].conjugate(),
                ),
            );
            next += 1;
        }
        density.push(sum);
        place += 1;
        assert(density@ =~= stated.take(place as int));
    }
    assert(density@ =~= stated);
    density
}

/// Density matrix of weighted vectors in row order.
pub fn diagonal_density_matrix<R: RealNumber, S: ComplexOver<R>>(
    eigenvectors: &Vec<Vec<S>>,
    probabilities: &Vec<R>,
) -> (result: Result<Vec<S>>)
    requires
        mixture(vectors(eigenvectors@), probabilities@) is Ok ==> eigenvectors@.len()
            * eigenvectors@.len() <= usize::MAX,
    ensures
        linear::vector_is(result, mixture(vectors(eigenvectors@), probabilities@)),
{
    let dimension: usize = eigenvectors.len();
    if probabilities.len() != dimension || !check_lengths(eigenvectors, dimension) {
        return Err(
            QmbedError::DimensionMismatch(
                Reason::Text("diagonal density probabilities and eigenvectors do not match"),
            ),
        );
    }
    if !check_nonnegative(probabilities) {
        return Err(
            QmbedError::InvalidOptions(
                Reason::Text("diagonal density probabilities must be finite and nonnegative"),
            ),
        );
    }
    Ok(mix_projectors(eigenvectors, probabilities))
}

} // verus!

//! Spectra and effective Hamiltonians of periodic drives.

use vstd::arithmetic::div_mod::*;
use vstd::prelude::*;

use crate::ensemble;
use crate::error::{QmbedError, Reason, Result};
use crate::floquet;
use crate::floquet::{
    floquet_eigensystem, is_recurring, Circular, DriveStep, Floquet, FloquetEigensystem,
    FloquetLevel, Propagation,
};
use crate::linear;
use crate::linear::{Entries, LinearOperator, Scalar};
use crate::matrix_subspace::Normed;
use crate::numbers::RealNumber;
use crate::ordered::copy_list;

verus! {

/// A solver for the propagators of one period, which are given in row order.
pub trait PropagatorSolver<R: RealNumber, S> {
    /// Eigenvalues and eigenvectors.
    spec fn spec_eigenpairs(&self, unitary: Entries<S>, dimension: usize) -> core::result::Result<
        (Entries<S>, Entries<Entries<S>>),
        QmbedError,
    >;

    /// How far a matrix is from being unitary.
    spec fn spec_unitarity_residual(
        &self,
        unitary: Entries<S>,
        dimension: usize,
    ) -> core::result::Result<R, QmbedError>;

    /// There are as many pairs as dimensions.
    proof fn pairs_fit(&self, unitary: Entries<S>, dimension: usize)
        ensures
            match self.spec_eigenpairs(unitary, dimension) {
                Ok((values, vectors)) => values.len() == dimension && ensemble::square(
                    vectors,
                    dimension as nat,
                ),
                Err(_) => true,
            },
    ;

    fn eigenpairs(&self, unitary: &Vec<S>, dimension: usize) -> (result: Result<
        (Vec<S>, Vec<Vec<S>>),
    >)
        requires
            unitary@.len() == dimension * dimension,
        ensures
            pairs_are(result, self.spec_eigenpairs(unitary@, dimension)),
    ;

    fn unitarity_residual(&self, unitary: &Vec<S>, dimension: usize) -> (result: Result<R>)
        requires
            unitary@.len() == dimension * dimension,
        ensures
            result == self.spec_unitarity_residual(unitary@, dimension),
    ;
}

/// Whether returned pairs are the stated ones.
pub open spec fn pairs_are<S>(
    result: Result<(Vec<S>, Vec<Vec<S>>)>,
    stated: core::result::Result<(Seq<S>, Seq<Seq<S>>), QmbedError>,
) -> bool {
    match (result, stated) {
        (Ok((values, vectors)), Ok((eigenvalues, eigenvectors))) => {
            &&& values@ == eigenvalues
            &&& ensemble::vectors(vectors@) == eigenvectors
        },
        (Err(error), Err(found)) => error == found,
        _ => false,
    }
}

/// Eigenpairs and a residual that are known beforehand.
#[derive(Debug)]
pub struct KnownPairs<R, S> {
    pub eigenvalues: Vec<S>,
    pub eigenvectors: Vec<Vec<S>>,
    pub unitarity_residual: R,
}

impl<R: RealNumber, S: Scalar> PropagatorSolver<R, S> for KnownPairs<R, S> {
    open spec fn spec_eigenpairs(&self, unitary: Seq<S>, dimension: usize) -> core::result::Result<
        (Seq<S>, Seq<Seq<S>>),
        QmbedError,
    > {
        let vectors = ensemble::vectors(self.eigenvectors@);
        if self.eigenvalues@.len() == dimension && ensemble::square(vectors, dimension as nat) {
            Ok((self.eigenvalues@, vectors))
        } else {
            Err(QmbedError::NonConvergence { iterations: 1 })
        }
    }

    open spec fn spec_unitarity_residual(&self, unitary: Seq<S>, dimension: usize) -> core::result::Result<
        R,
        QmbedError,
    > {
        Ok(self.unitarity_residual)
    }

    proof fn pairs_fit(&self, unitary: Seq<S>, dimension: usize) {
    }

    fn eigenpairs(&self, unitary: &Vec<S>, dimension: usize) -> (result: Result<
        (Vec<S>, Vec<Vec<S>>),
    >) {
        if self.eigenvalues.len() != dimension || !ensemble::check_square(
            &self.eigenvectors,
            dimension,
        ) {
            return Err(QmbedError::NonConvergence { iterations: 1 });
        }
        let mut vectors: Vec<Vec<S>> = Vec::new();
        let mut next: usize = 0;
        while next < self.eigenvectors.len()
            invariant
                next <= self.eigenvectors@.len(),
                vectors@.len() == next,
                forall|i: int| 0 <= i < next ==> (#[trigger] vectors@[i])@ == self.eigenvectors@[i]@,
            decreases self.eigenvectors@.len() - next,
        {
            vectors.push(copy_list(&self.eigenvectors[next]));
            next += 1;
        }
        assert(ensemble::vectors(vectors@) =~= ensemble::vectors(self.eigenvectors@));
        Ok((copy_list(&self.eigenvalues), vectors))
    }

    fn unitarity_residual(&self, unitary: &Vec<S>, dimension: usize) -> (result: Result<R>) {
        Ok(self.unitarity_residual)
    }
}

/// Levels of a propagator.
pub open spec fn solved_levels<R: RealNumber, S: Circular<R> + Normed, P: PropagatorSolver<R, S>>(
    unitary: Seq<S>,
    dimension: usize,
    period: R,
    solver: P,
    tolerance: R,
) -> core::result::Result<Seq<FloquetLevel<R, S>>, QmbedError> {
    match solver.spec_eigenpairs(unitary, dimension) {
        Ok((values, vectors)) => floquet::levels_of(
            unitary,
            period,
            values,
            vectors,
            tolerance,
            values.len(),
        ),
        Err(error) => Err(error),
    }
}

/// Residual and levels of a propagator.
pub open spec fn solved_spectrum<R: RealNumber, S: Circular<R> + Normed, P: PropagatorSolver<R, S>>(
    unitary: Seq<S>,
    dimension: usize,
    period: R,
    solver: P,
    tolerance: R,
) -> core::result::Result<(R, Seq<FloquetLevel<R, S>>), QmbedError> {
    match solver.spec_unitarity_residual(unitary, dimension) {
        Err(error) => Err(error),
        Ok(residual) => match solved_levels(unitary, dimension, period, solver, tolerance) {
            Err(error) => Err(error),
            Ok(levels) => Ok((residual, levels)),
        },
    }
}

/// The generator of a propagator on the principal quasienergy branch, in row order.
pub open spec fn effective<R: RealNumber, S: Circular<R>>(levels: Seq<FloquetLevel<R, S>>) -> Seq<S> {
    ensemble::mixed_projectors(
        floquet::eigenvectors_of(levels),
        floquet::quasienergies_of(levels),
    )
}

fn solve_levels<R: RealNumber, S: Circular<R> + Normed, P: PropagatorSolver<R, S>>(
    unitary: &Vec<S>,
    dimension: usize,
    period: R,
    solver: &P,
    tolerance: R,
) -> (result: Result<FloquetEigensystem<R, S>>)
    requires
        unitary@.len() == dimension * dimension,
    ensures
        match (result, solved_levels(unitary@, dimension, period, *solver, tolerance)) {
            (Ok(system), Ok(levels)) => {
                &&& system.aligned()
                &&& system@ == levels
                &&& levels.len() == dimension
                &&& ensemble::all_of_length(floquet::eigenvectors_of(levels), dimension as nat)
            },
            (Err(error), Err(stated)) => error == stated,
            _ => false,
        },
{
    proof {
        solver.pairs_fit(unitary@, dimension);
    }
    match solver.eigenpairs(unitary, dimension) {
        Ok((values, vectors)) => {
            proof {
                floquet::lemma_levels_lengths(
                    unitary@,
                    period,
                    values@,
                    ensemble::vectors(vectors@),
                    tolerance,
                    dimension as nat,
                    dimension as nat,
                );
            }
            let result: Result<FloquetEigensystem<R, S>> = floquet_eigensystem(
                unitary,
                period,
                &values,
                &vectors,
                tolerance,
            );
            proof {
                if let Ok(levels) = solved_levels(unitary@, dimension, period, *solver, tolerance) {
                    let list = floquet::eigenvectors_of(levels);
                    assert forall|i: int| 0 <= i < list.len() implies (#[trigger] list[i]).len()
                        == dimension by {
                        assert(levels[i].eigenvector.len() == dimension);
                    }
                }
            }
            result
        },
        Err(error) => Err(error),
    }
}

fn find_effective<R: RealNumber, S: Circular<R>>(
    system: &FloquetEigensystem<R, S>,
    dimension: usize,
) -> (matrix: Vec<S>)
    requires
        system.aligned(),
        system@.len() == dimension,
        ensemble::all_of_length(floquet::eigenvectors_of(system@), dimension as nat),
        dimension * dimension <= usize::MAX,
    ensures
        matrix@ == effective(system@),
{
    proof {
        assert(ensemble::vectors(system.eigenvectors@) =~= floquet::eigenvectors_of(system@));
        assert(system.quasienergies@ =~= floquet::quasienergies_of(system@));
    }
    ensemble::mix_projectors(&system.eigenvectors, &system.quasienergies)
}

/// The propagator of one period and its complete spectrum.
#[derive(Debug)]
pub struct FloquetSpectrum<R, S> {
    /// Physical period that turns phases into quasienergies.
    pub period: R,
    /// Sum of the durations of the steps.
    pub protocol_duration: R,
    /// The propagator in row order.
    pub unitary: Vec<S>,
    /// How far the propagator is from being unitary.
    pub unitarity_residual: R,
    /// Complete eigensystem of the propagator.
    pub eigensystem: FloquetEigensystem<R, S>,
}

/// A spectrum together with the effective Hamiltonian.
#[derive(Debug)]
pub struct FloquetAnalysis<R, S> {
    /// Physical analysis period.
    pub period: R,
    /// Sum of the durations of the steps.
    pub protocol_duration: R,
    /// The propagator in row order.
    pub unitary: Vec<S>,
    /// How far the propagator is from being unitary.
    pub unitarity_residual: R,
    /// Complete eigensystem of the propagator.
    pub eigensystem: FloquetEigensystem<R, S>,
    /// Generator on the principal quasienergy branch, in row order.
    pub effective_hamiltonian: Vec<S>,
}

/// The entries of a matrix in row order, from its columns.
pub open spec fn row_order<S>(columns: Seq<Seq<S>>, dimension: nat) -> Seq<S> {
    Seq::new(
        dimension * dimension,
        |i: int| columns[i % dimension as int][i / dimension as int],
    )
}

fn in_row_order<S: Copy>(columns: &Vec<Vec<S>>, dimension: usize) -> (matrix: Vec<S>)
    requires
        ensemble::square(ensemble::vectors(columns@), dimension as nat),
        dimension * dimension <= usize::MAX,
    ensures
        matrix@ == row_order(ensemble::vectors(columns@), dimension as nat),
{
    let ghost given = ensemble::vectors(columns@);
    let size: usize = dimension * dimension;
    let mut matrix: Vec<S> = Vec::new();
    let mut place: usize = 0;
    while place < size
        invariant
            place <= size,
            size == dimension * dimension,
            given == ensemble::vectors(columns@),
            ensemble::square(given, dimension as nat),
            matrix@.len() == place,
            forall|i: int|
                0 <= i < place ==> #[trigger] matrix@[i] == given[i % dimension as int][i
                    / dimension as int],
        decreases size - place,
    {
        proof {
            assert(dimension > 0) by (nonlinear_arith)
                requires
                    0 <= place < dimension * dimension,
            ;
            lemma_fundamental_div_mod(place as int, dimension as int);
            lemma_mod_bound(place as int, dimension as int);
            assert(0 <= place as int / dimension as int && place as int / (dimension as int)
                < dimension) by (nonlinear_arith)
                requires
                    0 <= place < dimension * dimension,
                    dimension > 0,
                    place == dimension * (place as int / dimension as int) + place as int
                        % dimension as int,
                    0 <= place as int % dimension as int,
            ;
            assert(given[place as int % dimension as int].len() == dimension);
        }
        matrix.push(columns[place % dimension][place / dimension]);
        place += 1;
    }
    assert(matrix@ =~= row_order(given, dimension as nat));
    matrix
}

/// The first columns of an operator: the images of the unit vectors.
pub open spec fn operator_columns<O: LinearOperator>(operator: O, count: nat) -> core::result::Result<
    Seq<Seq<O::Value>>,
    QmbedError,
>
    decreases count,
{
    if count == 0 {
        Ok(Seq::empty())
    } else {
        match operator_columns(operator, (count - 1) as nat) {
            Err(error) => Err(error),
            Ok(before) => match operator.spec_apply(
                linear::unit(operator.spec_columns() as nat, (count - 1) as nat),
            ) {
                Err(error) => Err(error),
                Ok(column) => Ok(before.push(column)),
            },
        }
    }
}

/// The entries of a square operator in row order.
pub open spec fn dense_entries<O: LinearOperator>(operator: O) -> core::result::Result<
    Seq<O::Value>,
    QmbedError,
> {
    match operator_columns(operator, operator.spec_columns() as nat) {
        Ok(columns) => Ok(row_order(columns, operator.spec_columns() as nat)),
        Err(error) => Err(error),
    }
}

proof fn lemma_operator_columns_fail<O: LinearOperator>(operator: O, count: nat, later: nat)
    requires
        count <= later,
        operator_columns(operator, count) is Err,
    ensures
        operator_columns(operator, later) == operator_columns(operator, count),
    decreases later,
{
    if count < later {
        lemma_operator_columns_fail(operator, count, (later - 1) as nat);
    }
}

/// The entries of a square operator in row order.
fn find_dense<O: LinearOperator>(operator: &O) -> (result: Result<Vec<O::Value>>)
    requires
        operator.wf(),
        operator.spec_rows() == operator.spec_columns(),
        dense_entries(*operator) is Ok ==> operator.spec_rows() * operator.spec_rows()
            <= usize::MAX,
    ensures
        linear::vector_is(result, dense_entries(*operator)),
        result matches Ok(entries) ==> entries@.len() == operator.spec_rows()
            * operator.spec_rows(),
{
    let (dimension, _) = operator.shape();
    let mut columns: Vec<Vec<O::Value>> = Vec::new();
    assert(ensemble::vectors(columns@) =~= Seq::empty());
    let mut next: usize = 0;
    while next < dimension
        invariant
            next <= dimension,
            dimension == operator.spec_rows(),
            dimension == operator.spec_columns(),
            operator.wf(),
            columns@.len() == next,
            ensemble::all_of_length(ensemble::vectors(columns@), dimension as nat),
            operator_columns(*operator, next as nat) == Ok::<Seq<Seq<O::Value>>, QmbedError>(
                ensemble::vectors(columns@),
            ),
        decreases dimension - next,
    {
        let ghost before = ensemble::vectors(columns@);
        let input: Vec<O::Value> = linear::unit_vector(dimension, next);
        proof {
            operator.images_fit(input@);
        }
        match operator.apply(&input) {
            Ok(column) => {
                let ghost image = column@;
                columns.push(column);
                assert(ensemble::vectors(columns@) =~= before.push(image));
            },
            Err(error) => {
                proof {
                    lemma_operator_columns_fail(*operator, (next + 1) as nat, dimension as nat);
                }
                return Err(error);
            },
        }
        next += 1;
    }
    Ok(in_row_order(&columns, dimension))
}

/// Why a propagator cannot be analyzed, or its entries in row order.
pub open spec fn analyzed_unitary<R: RealNumber, O: LinearOperator>(unitary: O, period: R) -> core::result::Result<
    Seq<O::Value>,
    QmbedError,
> {
    if unitary.spec_rows() != unitary.spec_columns() {
        Err(QmbedError::DimensionMismatch(Reason::Text("a Floquet propagator must be square")))
    } else {
        match dense_entries(unitary) {
            Err(error) => Err(error),
            Ok(entries) => if floquet::recurring(period) {
                Ok(entries)
            } else {
                Err(
                    QmbedError::InvalidOptions(
                        Reason::Text("Floquet analyses require a finite positive period"),
                    ),
                )
            },
        }
    }
}

/// Analyze an already constructed propagator of one period.
pub fn analyze_floquet_unitary<
    R: RealNumber,
    O: LinearOperator,
    P: PropagatorSolver<R, O::Value>,
>(unitary: &O, period: R, solver: &P, tolerance: R) -> (result: Result<
    FloquetAnalysis<R, O::Value>,
>) where O::Value: Circular<R> + Normed
    requires
        unitary.wf(),
        unitary.spec_rows() == unitary.spec_columns() && dense_entries(*unitary) is Ok
            ==> unitary.spec_rows() * unitary.spec_rows() <= usize::MAX,
    ensures
        match analyzed_unitary(*unitary, period) {
            Err(error) => result matches Err(found) && found == error,
            Ok(entries) => match (
                result,
                solved_spectrum(entries, unitary.spec_rows(), period, *solver, tolerance),
            ) {
                (Ok(analysis), Ok((residual, levels))) => {
                    &&& analysis.period == period
                    &&& analysis.protocol_duration == period
                    &&& analysis.unitary@ == entries
                    &&& analysis.unitarity_residual == residual
                    &&& analysis.eigensystem.aligned()
                    &&& analysis.eigensystem@ == levels
                    &&& analysis.effective_hamiltonian@ == effective(levels)
                },
                (Err(error), Err(stated)) => error == stated,
                _ => false,
            },
        },
{
    let (rows, columns) = unitary.shape();
    if rows != columns {
        return Err(QmbedError::DimensionMismatch(Reason::Text("a Floquet propagator must be square")));
    }
    let entries: Vec<O::Value> = match find_dense(unitary) {
        Ok(entries) => entries,
        Err(error) => {
            return Err(error);
        },
    };
    if !is_recurring(period) {
        return Err(
            QmbedError::InvalidOptions(Reason::Text("Floquet analyses require a finite positive period")),
        );
    }
    let unitarity_residual: R = match solver.unitarity_residual(&entries, rows) {
        Ok(residual) => residual,
        Err(error) => {
            return Err(error);
        },
    };
    match solve_levels(&entries, rows, period, solver, tolerance) {
        Ok(eigensystem) => {
            let effective_hamiltonian: Vec<O::Value> = find_effective(&eigensystem, rows);
            Ok(
                FloquetAnalysis {
                    period,
                    protocol_duration: period,
                    unitary: entries,
                    unitarity_residual,
                    eigensystem,
                    effective_hamiltonian,
                },
            )
        },
        Err(error) => Err(error),
    }
}

/// The propagator of one period of a drive in row order.
pub open spec fn dense_unitary<H, R: RealNumber, E: Propagation<H, R>>(
    steps: Seq<DriveStep<H, R>>,
    dimension: usize,
    evolution: E,
) -> core::result::Result<Seq<E::Value>, QmbedError> {
    match floquet::unitary_columns(steps, dimension, evolution, dimension as nat) {
        Ok(columns) => Ok(row_order(columns, dimension as nat)),
        Err(error) => Err(error),
    }
}

proof fn lemma_columns_fit<H, R: RealNumber, E: Propagation<H, R>>(
    steps: Seq<DriveStep<H, R>>,
    dimension: usize,
    evolution: E,
    count: nat,
)
    requires
        forall|i: int|
            0 <= i < steps.len() ==> evolution.ready(
                (#[trigger] steps[i]).hamiltonian,
                dimension as nat,
            ),
    ensures
        match floquet::unitary_columns(steps, dimension, evolution, count) {
            Ok(columns) => columns.len() == count && ensemble::all_of_length(
                columns,
                dimension as nat,
            ),
            Err(_) => true,
        },
    decreases count,
{
    if count > 0 {
        lemma_columns_fit(steps, dimension, evolution, (count - 1) as nat);
        floquet::lemma_driven_fits(
            steps,
            evolution,
            linear::unit(dimension as nat, (count - 1) as nat),
            steps.len(),
        );
    }
}

/// Whether a drive with a positive period has a propagator.
pub open spec fn has_unitary<H, R: RealNumber, E: Propagation<H, R>>(drive: Floquet<H, R, E>) -> bool {
    &&& !period_of(drive).spec_at_most(R::spec_zero())
    &&& dense_unitary(drive.spec_steps(), drive.spec_dimension(), drive.spec_evolution()) is Ok
}

/// The period that a drive declares, or the sum of its durations.
pub open spec fn period_of<H, R: RealNumber, E>(drive: Floquet<H, R, E>) -> R {
    match drive.spec_declared() {
        Some(declared) => declared,
        None => floquet::lasted(drive.spec_steps(), drive.spec_steps().len()),
    }
}

/// Levels of a drive.
pub open spec fn drive_levels<H, R, E, P>(drive: Floquet<H, R, E>, solver: P, tolerance: R) -> core::result::Result<
    Seq<FloquetLevel<R, E::Value>>,
    QmbedError,
> where
    R: RealNumber,
    E: Propagation<H, R>,
    E::Value: Circular<R> + Normed,
    P: PropagatorSolver<R, E::Value>,
 {
    if period_of(drive).spec_at_most(R::spec_zero()) {
        Err(QmbedError::InvalidOptions(Reason::Text("Floquet eigensystems require a positive period")))
    } else {
        match dense_unitary(drive.spec_steps(), drive.spec_dimension(), drive.spec_evolution()) {
            Err(error) => Err(error),
            Ok(unitary) => solved_levels(
                unitary,
                drive.spec_dimension(),
                period_of(drive),
                solver,
                tolerance,
            ),
        }
    }
}

/// Propagator, residual and levels of a drive.
pub open spec fn drive_spectrum<H, R, E, P>(drive: Floquet<H, R, E>, solver: P, tolerance: R) -> core::result::Result<
    (Seq<E::Value>, R, Seq<FloquetLevel<R, E::Value>>),
    QmbedError,
> where
    R: RealNumber,
    E: Propagation<H, R>,
    E::Value: Circular<R> + Normed,
    P: PropagatorSolver<R, E::Value>,
 {
    if period_of(drive).spec_at_most(R::spec_zero()) {
        Err(QmbedError::InvalidOptions(Reason::Text("Floquet spectra require a positive period")))
    } else {
        match dense_unitary(drive.spec_steps(), drive.spec_dimension(), drive.spec_evolution()) {
            Err(error) => Err(error),
            Ok(unitary) => match solved_spectrum(
                unitary,
                drive.spec_dimension(),
                period_of(drive),
                solver,
                tolerance,
            ) {
                Err(error) => Err(error),
                Ok((residual, levels)) => Ok((unitary, residual, levels)),
            },
        }
    }
}

impl<H, R: RealNumber, E: Propagation<H, R>> Floquet<H, R, E> where
    E::Value: Circular<R> + Normed,
 {
    /// The propagator of one period in row order.
    fn dense(&self) -> (result: Result<Vec<E::Value>>)
        requires
            self.valid(),
            dense_unitary(self.spec_steps(), self.spec_dimension(), self.spec_evolution()) is Ok
                ==> self.spec_dimension() * self.spec_dimension() <= usize::MAX,
        ensures
            linear::vector_is(
                result,
                dense_unitary(self.spec_steps(), self.spec_dimension(), self.spec_evolution()),
            ),
            result matches Ok(matrix) ==> matrix@.len() == self.spec_dimension()
                * self.spec_dimension(),
    {
        proof {
            lemma_columns_fit(
                self.spec_steps(),
                self.spec_dimension(),
                self.spec_evolution(),
                self.spec_dimension() as nat,
            );
        }
        match self.full_unitary() {
            Ok(columns) => Ok(in_row_order(&columns, self.dimension())),
            Err(error) => Err(error),
        }
    }

    /// Sorted quasienergies with their eigenvalues, eigenvectors and residuals.
    pub fn eigensystem<P: PropagatorSolver<R, E::Value>>(&self, solver: &P, tolerance: R) -> (result:
        Result<FloquetEigensystem<R, E::Value>>)
        requires
            self.valid(),
            has_unitary(*self) ==> self.spec_dimension() * self.spec_dimension() <= usize::MAX,
        ensures
            match (result, drive_levels(*self, *solver, tolerance)) {
                (Ok(system), Ok(levels)) => system.aligned() && system@ == levels,
                (Err(error), Err(stated)) => error == stated,
                _ => false,
            },
    {
        let period: R = self.period();
        if period.at_most(R::zero()) {
            return Err(
                QmbedError::InvalidOptions(Reason::Text("Floquet eigensystems require a positive period")),
            );
        }
        match self.dense() {
            Ok(unitary) => solve_levels(&unitary, self.dimension(), period, solver, tolerance),
            Err(error) => Err(error),
        }
    }

    /// The effective Hamiltonian on the principal quasienergy branch, in row order.
    pub fn effective_hamiltonian<P: PropagatorSolver<R, E::Value>>(
        &self,
        solver: &P,
        tolerance: R,
    ) -> (result: Result<Vec<E::Value>>)
        requires
            self.valid(),
            has_unitary(*self) ==> self.spec_dimension() * self.spec_dimension() <= usize::MAX,
        ensures
            match (result, drive_levels(*self, *solver, tolerance)) {
                (Ok(matrix), Ok(levels)) => matrix@ == effective(levels),
                (Err(error), Err(stated)) => error == stated,
                _ => false,
            },
    {
        let period: R = self.period();
        if period.at_most(R::zero()) {
            return Err(
                QmbedError::InvalidOptions(Reason::Text("Floquet eigensystems require a positive period")),
            );
        }
        match self.dense() {
            Ok(unitary) => match solve_levels(
                &unitary,
                self.dimension(),
                period,
                solver,
                tolerance,
            ) {
                Ok(system) => Ok(find_effective(&system, self.dimension())),
                Err(error) => Err(error),
            },
            Err(error) => Err(error),
        }
    }

    /// The propagator of one period with its complete spectrum.
    pub fn spectrum<P: PropagatorSolver<R, E::Value>>(&self, solver: &P, tolerance: R) -> (result:
        Result<FloquetSpectrum<R, E::Value>>)
        requires
            self.valid(),
            has_unitary(*self) ==> self.spec_dimension() * self.spec_dimension() <= usize::MAX,
        ensures
            match (result, drive_spectrum(*self, *solver, tolerance)) {
                (Ok(spectrum), Ok((unitary, residual, levels))) => {
                    &&& spectrum.period == period_of(*self)
                    &&& spectrum.protocol_duration == floquet::lasted(
                        self.spec_steps(),
                        self.spec_steps().len(),
                    )
                    &&& spectrum.unitary@ == unitary
                    &&& spectrum.unitarity_residual == residual
                    &&& spectrum.eigensystem.aligned()
                    &&& spectrum.eigensystem@ == levels
                    &&& levels.len() == self.spec_dimension()
                    &&& ensemble::all_of_length(
                        floquet::eigenvectors_of(levels),
                        self.spec_dimension() as nat,
                    )
                },
                (Err(error), Err(stated)) => error == stated,
                _ => false,
            },
    {
        let period: R = self.period();
        if period.at_most(R::zero()) {
            return Err(QmbedError::InvalidOptions(Reason::Text("Floquet spectra require a positive period")));
        }
        let unitary: Vec<E::Value> = match self.dense() {
            Ok(unitary) => unitary,
            Err(error) => {
                return Err(error);
            },
        };
        let unitarity_residual: R = match solver.unitarity_residual(&unitary, self.dimension()) {
            Ok(residual) => residual,
            Err(error) => {
                return Err(error);
            },
        };
        match solve_levels(&unitary, self.dimension(), period, solver, tolerance) {
            Ok(eigensystem) => Ok(
                FloquetSpectrum {
                    period,
                    protocol_duration: self.protocol_duration(),
                    unitary,
                    unitarity_residual,
                    eigensystem,
                },
            ),
            Err(error) => Err(error),
        }
    }

    /// The propagator of one period with its spectrum and its effective Hamiltonian.
    pub fn analyze<P: PropagatorSolver<R, E::Value>>(&self, solver: &P, tolerance: R) -> (result:
        Result<FloquetAnalysis<R, E::Value>>)
        requires
            self.valid(),
            has_unitary(*self) ==> self.spec_dimension() * self.spec_dimension() <= usize::MAX,
        ensures
            match (result, drive_spectrum(*self, *solver, tolerance)) {
                (Ok(analysis), Ok((unitary, residual, levels))) => {
                    &&& analysis.period == period_of(*self)
                    &&& analysis.protocol_duration == floquet::lasted(
                        self.spec_steps(),
                        self.spec_steps().len(),
                    )
                    &&& analysis.unitary@ == unitary
                    &&& analysis.unitarity_residual == residual
                    &&& analysis.eigensystem.aligned()
                    &&& analysis.eigensystem@ == levels
                    &&& analysis.effective_hamiltonian@ == effective(levels)
                },
                (Err(error), Err(stated)) => error == stated,
                _ => false,
            },
    {
        match self.spectrum(solver, tolerance) {
            Ok(spectrum) => {
                let effective_hamiltonian: Vec<E::Value> = find_effective(
                    &spectrum.eigensystem,
                    self.dimension(),
                );
                Ok(
                    FloquetAnalysis {
                        period: spectrum.period,
                        protocol_duration: spectrum.protocol_duration,
                        unitary: spectrum.unitary,
                        unitarity_residual: spectrum.unitarity_residual,
                        eigensystem: spectrum.eigensystem,
                        effective_hamiltonian,
                    },
                )
            },
            Err(error) => Err(error),
        }
    }
}

} // verus!

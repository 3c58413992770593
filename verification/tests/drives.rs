use qmbed::error::{QmbedError, Reason};
use qmbed::floquet::{
    floquet_eigensystem, CallableDriveStep, DriveStep, Floquet, FloquetCoordinate,
    FloquetTimeVector, UnitPropagators,
};
use qmbed::floquet_spectrum::{analyze_floquet_unitary, KnownPairs};
use qmbed::linear::{Gaussian, MatrixFormat, Operator};
use qmbed::numbers::Whole;
use qmbed::response::{
    broadened_spectrum, correlate, created_state, dynamical_correlator, evolve, spectral_function,
    SpectrumOptions,
};
use qmbed::time_block::SteppedOperator;

fn g(re: i64, im: i64) -> Gaussian {
    Gaussian { re, im }
}

fn w(value: i64) -> Whole {
    Whole { value }
}

fn ws(values: &[i64]) -> Vec<Whole> {
    values.iter().map(|&value| w(value)).collect()
}

fn gs(values: &[i64]) -> Vec<Gaussian> {
    values.iter().map(|&value| g(value, 0)).collect()
}

fn flip() -> Operator<Gaussian> {
    Operator::from_triplets(2, 2, vec![(0, 1, g(1, 0)), (1, 0, g(1, 0))], MatrixFormat::Csc).unwrap()
}

fn turn() -> Operator<Gaussian> {
    Operator::from_triplets(2, 2, vec![(0, 0, g(1, 0)), (1, 1, g(0, 1))], MatrixFormat::Csc).unwrap()
}

fn level() -> Operator<Gaussian> {
    Operator::from_triplets(2, 2, vec![(0, 0, g(1, 0)), (1, 1, g(-1, 0))], MatrixFormat::Csc).unwrap()
}

#[test]
fn periods_apply_their_steps_in_order() {
    let steps = vec![
        DriveStep::new(flip(), w(1)).unwrap(),
        DriveStep::new(turn(), w(3)).unwrap(),
    ];
    let floquet = Floquet::new(steps, UnitPropagators).unwrap();
    assert_eq!(floquet.protocol_duration(), w(4));
    assert_eq!(floquet.period(), w(4));
    assert_eq!(floquet.apply_period(&gs(&[1, 0])), Ok(vec![g(0, 0), g(0, -1)]));
    assert_eq!(
        floquet.full_unitary(),
        Ok(vec![vec![g(0, 0), g(0, -1)], vec![g(1, 0), g(0, 0)]])
    );
    assert_eq!(
        floquet.apply_period(&gs(&[1])),
        Err(QmbedError::DimensionMismatch(Reason::Text("Floquet input or output length does not match")))
    );
    let declared = floquet.with_period(w(9)).unwrap();
    assert_eq!(declared.period(), w(9));
    assert_eq!(declared.protocol_duration(), w(4));
    assert_eq!(
        declared.with_period(w(0)).err(),
        Some(QmbedError::InvalidOptions(Reason::Text("Floquet analysis period must be finite and positive")))
    );
}

#[test]
fn drive_refusals() {
    let wide = Operator::from_triplets(2, 1, vec![(0, 0, g(1, 0))], MatrixFormat::Csc).unwrap();
    assert_eq!(
        DriveStep::new(wide, w(1)).err(),
        Some(QmbedError::DimensionMismatch(Reason::Text("a drive Hamiltonian must be square")))
    );
    assert_eq!(
        DriveStep::new(flip(), w(-1)).err(),
        Some(QmbedError::InvalidOptions(Reason::Text("drive duration must be finite and nonnegative")))
    );
    let none: Vec<DriveStep<Operator<Gaussian>, Whole>> = vec![];
    assert_eq!(
        Floquet::new(none, UnitPropagators).err(),
        Some(QmbedError::InvalidOptions(Reason::Text("Floquet requires at least one drive step")))
    );
    let one = Operator::from_triplets(1, 1, vec![(0, 0, g(1, 0))], MatrixFormat::Csc).unwrap();
    assert_eq!(
        Floquet::new(
            vec![DriveStep::new(flip(), w(1)).unwrap(), DriveStep::new(one, w(1)).unwrap()],
            UnitPropagators
        )
        .err(),
        Some(QmbedError::DimensionMismatch(Reason::Text("all drive steps must have the same square shape")))
    );
    let stepped = SteppedOperator::new(vec![flip()]).unwrap();
    assert!(CallableDriveStep::new(stepped, w(1)).is_ok());
    let uneven =
        SteppedOperator::new(vec![Operator::from_triplets(2, 1, vec![(0, 0, g(1, 0))], MatrixFormat::Csc).unwrap()])
            .unwrap();
    assert_eq!(
        CallableDriveStep::new(uneven, w(1)).err(),
        Some(QmbedError::DimensionMismatch(Reason::Text("a callable drive Hamiltonian must be square")))
    );
}

#[test]
fn time_grids_and_coordinates() {
    let grid = FloquetTimeVector::new(w(8), 2, 4, true).unwrap();
    assert_eq!(grid.times(), &ws(&[0, 2, 4, 6, 8, 10, 12, 14, 16]));
    assert_eq!(grid.coordinate(5), Ok(FloquetCoordinate { cycle: 1, within_cycle: w(2) }));
    assert_eq!(grid.cycles(), 2);
    assert_eq!(grid.points_per_cycle(), 4);
    assert_eq!(grid.period(), w(8));
    assert_eq!(
        grid.coordinate(9),
        Err(QmbedError::InvalidOptions(Reason::Text("Floquet time index is out of bounds")))
    );
    for index in 0..8 {
        let place = grid.coordinate(index).unwrap();
        assert!(place.cycle < 2);
        assert_eq!(place.cycle * 4 + place.within_cycle.value as usize / 2, index);
    }
    let staged = FloquetTimeVector::staged(w(4), 1, 1, 1, 2).unwrap();
    assert_eq!(staged.times(), &ws(&[-4, -2, 0, 2, 4, 6, 8]));
    assert_eq!(staged.cycles(), 3);
}

#[test]
fn time_grid_refusals() {
    assert_eq!(
        FloquetTimeVector::new(w(0), 1, 1, false).err(),
        Some(QmbedError::InvalidOptions(Reason::Text("Floquet time-vector controls must be positive")))
    );
    assert_eq!(
        FloquetTimeVector::new(w(1), usize::MAX, 2, false).err(),
        Some(QmbedError::InvalidOptions(Reason::Text("Floquet time-vector overflow")))
    );
    assert_eq!(
        FloquetTimeVector::staged(w(1), usize::MAX, 1, 0, 1).err(),
        Some(QmbedError::InvalidOptions(Reason::Text("Floquet cycle count overflow")))
    );
    assert_eq!(
        FloquetTimeVector::staged(w(1), 1, 0, 1, 1).err(),
        Some(QmbedError::InvalidOptions(Reason::Text("Floquet staged-grid controls must be positive")))
    );
    assert_eq!(
        FloquetTimeVector::staged(w(1), 0, usize::MAX, 0, 1).err(),
        Some(QmbedError::InvalidOptions(Reason::Text("Floquet time-vector overflow")))
    );
}

#[test]
fn quasienergies_are_sorted() {
    let unitary = gs(&[0, 1, 1, 0]);
    let values = gs(&[1, -1]);
    let vectors = vec![gs(&[1, 1]), gs(&[1, -1])];
    let system = floquet_eigensystem(&unitary, w(1), &values, &vectors, w(0)).unwrap();
    assert_eq!(system.quasienergies, ws(&[-2, 0]));
    assert_eq!(system.eigenvalues, gs(&[-1, 1]));
    assert_eq!(system.eigenvectors[0], gs(&[1, -1]));
    assert_eq!(system.residuals, ws(&[0, 0]));
    let solver = KnownPairs { eigenvalues: values, eigenvectors: vectors, unitarity_residual: w(7) };
    let swap = flip();
    let analysis = analyze_floquet_unitary(&swap, w(1), &solver, w(0)).unwrap();
    assert_eq!(analysis.effective_hamiltonian, gs(&[-2, 2, 2, -2]));
    assert_eq!(analysis.period, w(1));
    assert_eq!(analysis.protocol_duration, w(1));
    assert_eq!(analysis.unitary, unitary);
    assert_eq!(analysis.unitarity_residual, w(7));
    assert_eq!(
        analyze_floquet_unitary(
            &Operator::<Gaussian>::from_triplets(2, 1, vec![], MatrixFormat::Csc).unwrap(),
            w(1),
            &solver,
            w(0)
        )
        .err(),
        Some(QmbedError::DimensionMismatch(Reason::Text("a Floquet propagator must be square")))
    );
    assert_eq!(
        analyze_floquet_unitary(&swap, w(0), &solver, w(0)).err(),
        Some(QmbedError::InvalidOptions(Reason::Text("Floquet analyses require a finite positive period")))
    );
    assert_eq!(
        analyze_floquet_unitary(
            &Operator::from_triplets(1, 1, vec![(0, 0, g(1, 0))], MatrixFormat::Csc).unwrap(),
            w(1),
            &solver,
            w(0)
        )
        .err(),
        Some(QmbedError::NonConvergence { iterations: 1 })
    );
    let vectors = vec![gs(&[1, 1]), gs(&[1, -1])];
    assert_eq!(
        floquet_eigensystem(&unitary, w(1), &gs(&[2, -1]), &vectors, w(0)).err(),
        Some(QmbedError::NonConvergence { iterations: 1 })
    );
}

#[test]
fn lorentzian_lines() {
    let options = SpectrumOptions::new(ws(&[0, 1]), w(0), w(1), w(1), w(3));
    assert_eq!(options.krylov_dimension, 64);
    assert_eq!(broadened_spectrum(&options, &ws(&[0]), &ws(&[12])), ws(&[4, 2]));
    let axes = vec![gs(&[1, 0]), gs(&[0, 1])];
    let spectrum =
        spectral_function(&level(), &gs(&[6, 0]), &flip(), &options, &ws(&[1, 0]), &axes).unwrap();
    assert_eq!(spectrum, ws(&[12, 6]));
    assert_eq!(
        created_state(&level(), &gs(&[6, 0]), &flip(), &options),
        Ok(gs(&[0, 6]))
    );
    assert_eq!(
        created_state(&level(), &gs(&[6]), &flip(), &options),
        Err(QmbedError::DimensionMismatch(
            Reason::Text("target Hamiltonian, source, and probe shapes are incompatible")
        ))
    );
}

#[test]
fn spectrum_options_are_checked() {
    let refused = Err(QmbedError::InvalidOptions(
        Reason::Text("invalid spectrum frequency grid or numerical controls"),
    ));
    assert_eq!(SpectrumOptions::new(ws(&[]), w(0), w(1), w(1), w(3)).validate(), refused);
    assert_eq!(SpectrumOptions::new(ws(&[0]), w(0), w(0), w(1), w(3)).validate(), refused);
    assert_eq!(
        SpectrumOptions::new(ws(&[0]), w(0), w(1), w(1), w(3)).with_krylov_dimension(0).validate(),
        refused
    );
    assert_eq!(
        SpectrumOptions::new(ws(&[0]), w(0), w(1), w(1), w(3)).with_tolerance(w(0)).validate(),
        refused
    );
    assert_eq!(SpectrumOptions::new(ws(&[0]), w(0), w(1), w(1), w(3)).validate(), Ok(()));
}

#[test]
fn correlators_follow_both_states() {
    let values = dynamical_correlator(
        &flip(),
        &gs(&[1, 0]),
        &level(),
        &level(),
        &UnitPropagators,
        &ws(&[0, 1]),
    );
    assert_eq!(values, Ok(gs(&[1, -1])));
    assert_eq!(
        dynamical_correlator(
            &flip(),
            &gs(&[1]),
            &level(),
            &level(),
            &UnitPropagators,
            &ws(&[0])
        ),
        Err(QmbedError::DimensionMismatch(
            Reason::Text("correlator Hamiltonian, probes, and state dimensions do not match")
        ))
    );
    assert_eq!(
        evolve(&UnitPropagators, &turn(), &gs(&[0, 1]), &ws(&[0, 1, 2])),
        Ok(vec![gs(&[0, 1]), vec![g(0, 0), g(0, 1)], gs(&[0, -1])])
    );
    assert_eq!(
        correlate(&flip(), &vec![gs(&[1, 0])], &vec![gs(&[0, 5])]),
        Ok(gs(&[5]))
    );
}

#[test]
fn drives_have_spectra() {
    let floquet =
        Floquet::new(vec![DriveStep::new(flip(), w(1)).unwrap()], UnitPropagators).unwrap();
    let solver = KnownPairs {
        eigenvalues: gs(&[1, -1]),
        eigenvectors: vec![gs(&[1, 1]), gs(&[1, -1])],
        unitarity_residual: w(0),
    };
    let system = floquet.eigensystem(&solver, w(0)).unwrap();
    assert_eq!(system.quasienergies, ws(&[-2, 0]));
    assert_eq!(floquet.effective_hamiltonian(&solver, w(0)), Ok(gs(&[-2, 2, 2, -2])));
    let analysis = floquet.analyze(&solver, w(0)).unwrap();
    assert_eq!(analysis.unitary, gs(&[0, 1, 1, 0]));
    assert_eq!(analysis.effective_hamiltonian, gs(&[-2, 2, 2, -2]));
    let spectrum = floquet.with_period(w(2)).unwrap().spectrum(&solver, w(0)).unwrap();
    assert_eq!(spectrum.period, w(2));
    assert_eq!(spectrum.protocol_duration, w(1));
    assert_eq!(spectrum.eigensystem.quasienergies, ws(&[-1, 0]));
}

#[test]
fn propagators_stand_in_row_order() {
    let steps = vec![
        DriveStep::new(flip(), w(1)).unwrap(),
        DriveStep::new(turn(), w(3)).unwrap(),
    ];
    let floquet = Floquet::new(steps, UnitPropagators).unwrap();
    let solver = KnownPairs {
        eigenvalues: gs(&[1, 1]),
        eigenvectors: vec![gs(&[1, 0]), gs(&[0, 1])],
        unitarity_residual: w(3),
    };
    let spectrum = floquet.spectrum(&solver, w(0)).unwrap();
    assert_eq!(spectrum.unitary, vec![g(0, 0), g(1, 0), g(0, -1), g(0, 0)]);
    assert_eq!(spectrum.unitarity_residual, w(3));
}

#[test]
fn drives_without_a_period_have_no_spectrum() {
    let still =
        Floquet::new(vec![DriveStep::new(flip(), w(0)).unwrap()], UnitPropagators).unwrap();
    let solver = KnownPairs {
        eigenvalues: gs(&[1, 1]),
        eigenvectors: vec![gs(&[1, 0]), gs(&[0, 1])],
        unitarity_residual: w(0),
    };
    assert_eq!(
        still.eigensystem(&solver, w(0)).err(),
        Some(QmbedError::InvalidOptions(Reason::Text("Floquet eigensystems require a positive period")))
    );
    assert_eq!(
        still.analyze(&solver, w(0)).err(),
        Some(QmbedError::InvalidOptions(Reason::Text("Floquet spectra require a positive period")))
    );
}

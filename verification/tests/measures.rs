use qmbed::amplitudes::Turn;
use qmbed::coherent::coherent_state;
use qmbed::density::{
    partial_trace, partial_trace_density, partial_trace_density_subsystem,
    partial_trace_sector_density, partial_trace_sector_state, partial_trace_subsystem,
};
use qmbed::ensemble::{
    analyze_diagonal_ensemble, diagonal_density_matrix, diagonal_ensemble,
    diagonal_ensemble_density, diagonal_ensemble_from_probabilities, sort_levels,
};
use qmbed::entanglement::{
    canonical_schmidt_spectrum_subsystem,
    canonical_schmidt_spectrum_subsystem_with_exchange_phases, density_matrix_spectrum,
    entanglement_entropy, entanglement_entropy_batch, entanglement_entropy_density,
    entanglement_entropy_density_subsystem, entanglement_entropy_sector,
    entanglement_entropy_subsystem, entanglement_spectrum, entanglement_spectrum_density,
    entanglement_spectrum_density_subsystem, entanglement_spectrum_sector,
    entanglement_spectrum_subsystem, fermionic_groups, DiagonalOnly,
};
use qmbed::error::{QmbedError, Reason};
use qmbed::evolution::{ed_density_vs_time, ed_state_vs_time, observables_vs_time};
use qmbed::exchange::{
    binary_sector_subsystem_layout, fermionic_subsystem_phases, noncommuting_subsystem_exchange_phases,
    noncommuting_subsystem_phases, split_binary_sector_state, NoncommutingGroup,
};
use qmbed::linear::{Gaussian, MatrixFormat, Operator};
use qmbed::numbers::Whole;
use qmbed::observables::{
    density_expectation, density_quantum_fluctuation, diagonal_ensemble_observable, expectation,
    matrix_element, project_operator, quantum_fluctuation, raw_quantum_fluctuation,
    subspace_fidelity, Subspace,
};
use qmbed::phases::{
    apply_fermionic_subsystem_phases, apply_fermionic_subsystem_phases_density,
    apply_noncommuting_subsystem_exchange_phases,
    apply_noncommuting_subsystem_exchange_phases_density, apply_noncommuting_subsystem_phases,
    apply_noncommuting_subsystem_phases_density, canonical_schmidt_sites,
};
use qmbed::projector::BasisProjector;
use qmbed::statistics::{
    distribution_entropy, energy_window_indices, entropy_from_spectrum, kl_divergence,
    mean_level_spacing, shannon_entropy, EntropyOrder,
};
use qmbed::subsystem::{subsystem_dimensions, subsystem_index_map};

fn g(re: i64, im: i64) -> Gaussian {
    Gaussian { re, im }
}

fn w(value: i64) -> Whole {
    Whole { value }
}

fn ws(values: &[i64]) -> Vec<Whole> {
    values.iter().map(|&value| w(value)).collect()
}

fn gs(values: &[i64]) -> Vec<Gaussian> {
    values.iter().map(|&value| g(value, 0)).collect()
}

fn flip() -> Operator<Gaussian> {
    Operator::from_triplets(2, 2, vec![(0, 1, g(1, 0)), (1, 0, g(1, 0))], MatrixFormat::Csc).unwrap()
}

fn level() -> Operator<Gaussian> {
    Operator::from_triplets(2, 2, vec![(0, 0, g(1, 0)), (1, 1, g(-1, 0))], MatrixFormat::Csc).unwrap()
}

fn axes() -> Vec<Vec<Gaussian>> {
    vec![gs(&[1, 0]), gs(&[0, 1])]
}

#[test]
fn entropies_over_whole_numbers() {
    assert_eq!(shannon_entropy(&ws(&[1, 0])), w(0));
    assert_eq!(shannon_entropy(&ws(&[4])), w(-8));
    assert_eq!(entropy_from_spectrum(&ws(&[1]), EntropyOrder::VonNeumann), Ok(w(0)));
    assert_eq!(
        entropy_from_spectrum(&ws(&[1]), EntropyOrder::Renyi(w(1))),
        Err(QmbedError::InvalidOptions(
            Reason::Text("Renyi order must be positive, finite, and different from one")
        ))
    );
    assert_eq!(distribution_entropy(&ws(&[1]), w(1)), Ok(w(0)));
    assert_eq!(
        distribution_entropy(&ws(&[1]), w(-1)),
        Err(QmbedError::InvalidOptions(Reason::Text("Renyi alpha must be finite and nonnegative")))
    );
}

#[test]
fn divergences_and_their_refusals() {
    assert_eq!(kl_divergence(&ws(&[1]), &ws(&[1])), Ok(w(0)));
    assert_eq!(
        kl_divergence(&ws(&[2]), &ws(&[1])),
        Err(QmbedError::InvalidOptions(Reason::Text("KL distributions must be normalized")))
    );
    assert!(kl_divergence(&ws(&[]), &ws(&[])).is_err());
    assert!(kl_divergence(&ws(&[0, 1]), &ws(&[1, 0])).is_err());
}

#[test]
fn energy_windows_hold_their_edges() {
    assert_eq!(energy_window_indices(&ws(&[0, 2, 4, 5]), w(2), w(2)), Ok(vec![0, 1, 2]));
    assert_eq!(
        energy_window_indices(&ws(&[0]), w(0), w(-1)),
        Err(QmbedError::InvalidOptions(
            Reason::Text("energy-window inputs must be finite and the half-width nonnegative")
        ))
    );
}

#[test]
fn level_spacings() {
    assert_eq!(mean_level_spacing(&ws(&[0, 1, 2, 3])), Ok(Some(w(1))));
    assert_eq!(mean_level_spacing(&ws(&[0, 1, 1, 3])), Ok(None));
    assert_eq!(
        mean_level_spacing(&ws(&[0, 1])),
        Err(QmbedError::InvalidOptions(
            Reason::Text("level-spacing statistics require at least three finite values")
        ))
    );
    assert_eq!(
        mean_level_spacing(&ws(&[2, 1, 3])),
        Err(QmbedError::InvalidOptions(Reason::Text("level spectrum must be sorted in ascending order")))
    );
    assert_eq!(sort_levels(&ws(&[3, 1, 2])), ws(&[1, 2, 3]));
}

#[test]
fn expectations_and_fluctuations() {
    assert_eq!(expectation(&flip(), &gs(&[1, 1])), Ok(g(2, 0)));
    assert_eq!(matrix_element(&gs(&[1, 0]), &flip(), &gs(&[0, 1])), Ok(g(1, 0)));
    assert_eq!(quantum_fluctuation::<Whole, _>(&flip(), &gs(&[1, 0])), Ok(w(1)));
    assert_eq!(raw_quantum_fluctuation(&flip(), &gs(&[1, 1])), Ok(g(-2, 0)));
    assert_eq!(
        expectation(&flip(), &gs(&[1])),
        Err(QmbedError::DimensionMismatch(
            Reason::Text("matrix-element vectors do not match the operator shape")
        ))
    );
    assert_eq!(density_expectation(&level(), &gs(&[3, 0, 0, 1])), Ok(g(2, 0)));
    assert_eq!(density_quantum_fluctuation(&level(), &gs(&[1, 0, 0, 0])), Ok(g(0, 0)));
    assert!(density_expectation(&level(), &gs(&[1])).is_err());
}

#[test]
fn operators_are_projected() {
    let projector = BasisProjector::from_columns(2, &vec![vec![(1, g(1, 0))]]).unwrap();
    let small = project_operator(&level(), &projector, MatrixFormat::Csc).unwrap();
    assert_eq!(small.get(0, 0), g(-1, 0));
    let one = Operator::from_triplets(1, 1, vec![(0, 0, g(5, 0))], MatrixFormat::Csc).unwrap();
    let large = project_operator(&one, &projector, MatrixFormat::Csc).unwrap();
    assert_eq!(large.get(1, 1), g(5, 0));
    let wrong = Operator::from_triplets(3, 3, vec![(0, 0, g(5, 0))], MatrixFormat::Csc).unwrap();
    assert_eq!(
        project_operator(&wrong, &projector, MatrixFormat::Csc).err(),
        Some(QmbedError::DimensionMismatch(
            Reason::Text("operator dimension must match the parent or reduced projector space")
        ))
    );
}

#[test]
fn subspaces_and_fidelity() {
    let left = Subspace::from_columns(2, 1, &gs(&[1, 0]), 0).unwrap();
    let right = Subspace::from_columns(2, 1, &gs(&[0, 1]), 0).unwrap();
    assert_eq!(subspace_fidelity::<Whole, _>(&left, &left), Ok(w(1)));
    assert_eq!(subspace_fidelity::<Whole, _>(&left, &right), Ok(w(0)));
    assert_eq!(
        Subspace::from_columns(2, 2, &gs(&[1, 0, 1, 0]), 0).err(),
        Some(QmbedError::RankDeficient)
    );
    assert_eq!(
        Subspace::from_columns(2, 1, &gs(&[1]), 0).err(),
        Some(QmbedError::DimensionMismatch(
            Reason::Text("subspace storage must contain ambient_dimension * rank entries")
        ))
    );
    let wide = Subspace::from_columns(3, 1, &gs(&[1, 0, 0]), 0).unwrap();
    assert_eq!(
        subspace_fidelity::<Whole, _>(&left, &wide),
        Err(QmbedError::DimensionMismatch(Reason::Text("subspaces must share an ambient dimension")))
    );
}

#[test]
fn diagonal_ensembles() {
    let ensemble = diagonal_ensemble(&ws(&[3, 7]), &axes(), &gs(&[0, 1])).unwrap();
    assert_eq!(ensemble.probabilities, ws(&[0, 1]));
    assert_eq!(ensemble.mean_energy, w(7));
    assert_eq!(ensemble.energy_variance, w(0));
    assert_eq!(ensemble.entropy, w(0));
    let mixed = diagonal_ensemble_density(&ws(&[3, 7]), &axes(), &gs(&[1, 0, 0, 0])).unwrap();
    assert_eq!(mixed.mean_energy, w(3));
    let given = diagonal_ensemble_from_probabilities(&ws(&[3, 7]), &ws(&[1, 0])).unwrap();
    assert_eq!(given.mean_energy, w(3));
    assert_eq!(
        diagonal_ensemble(&ws(&[3]), &axes(), &gs(&[0, 1])).err(),
        Some(QmbedError::DimensionMismatch(Reason::Text("eigensystem and initial state dimensions do not match")))
    );
    assert_eq!(
        diagonal_ensemble(&ws(&[3, 7]), &axes(), &gs(&[0, 0])).err(),
        Some(QmbedError::InvalidOptions(Reason::Text("initial state must have positive finite norm")))
    );
    assert_eq!(
        diagonal_ensemble_from_probabilities(&ws(&[3, 7]), &ws(&[-1, 2])).err(),
        Some(QmbedError::InvalidOptions(
            Reason::Text("diagonal probabilities must be finite, nonnegative, and match the spectrum")
        ))
    );
}

#[test]
fn diagonal_ensemble_columns() {
    let columns =
        analyze_diagonal_ensemble(&ws(&[3, 7]), &axes(), &vec![ws(&[1, 0])], Some(&level()), w(1))
            .unwrap();
    assert_eq!(columns.len(), 1);
    assert_eq!(columns[0].observable, Some(w(1)));
    assert_eq!(columns[0].temporal_fluctuation, Some(w(0)));
    assert_eq!(columns[0].quantum_fluctuation, Some(w(0)));
    assert_eq!(
        analyze_diagonal_ensemble(&ws(&[3, 3]), &axes(), &vec![ws(&[1, 0])], Some(&level()), w(1))
            .err(),
        Some(QmbedError::InvalidOptions(
            Reason::Text("diagonal-ensemble formulas require a nondegenerate spectrum")
        ))
    );
    assert_eq!(
        analyze_diagonal_ensemble(&ws(&[3, 7]), &axes(), &vec![], Some(&level()), w(1)).err(),
        Some(QmbedError::InvalidOptions(
            Reason::Text("diagonal-ensemble analysis needs at least one probability column")
        ))
    );
    assert_eq!(
        diagonal_ensemble_observable(&ws(&[0, 1]), &axes(), &level()),
        Ok(g(-1, 0))
    );
    assert_eq!(diagonal_density_matrix(&axes(), &ws(&[2, 3])), Ok(gs(&[2, 0, 0, 3])));
}

#[test]
fn reduced_density_matrices() {
    let state = gs(&[0, 1, 0, 0]);
    assert_eq!(partial_trace::<Whole, _>(&state, 2, 2), Ok(gs(&[1, 0, 0, 0])));
    assert_eq!(
        partial_trace::<Whole, _>(&state, 3, 2),
        Err(QmbedError::DimensionMismatch(
            Reason::Text("state length must equal subsystem_dimension * environment_dimension")
        ))
    );
    assert_eq!(
        partial_trace::<Whole, _>(&gs(&[0, 0, 0, 0]), 2, 2),
        Err(QmbedError::InvalidOptions(Reason::Text("state must have positive finite norm")))
    );
    let first = partial_trace_subsystem::<Whole, _>(&state, &[2, 2], &[0]).unwrap();
    let second = partial_trace_subsystem::<Whole, _>(&state, &[2, 2], &[1]).unwrap();
    assert_eq!(first, gs(&[0, 0, 0, 1]));
    assert_eq!(second, gs(&[1, 0, 0, 0]));
    let mut density = gs(&[0; 16]);
    density[5] = g(1, 0);
    assert_eq!(partial_trace_density::<Whole, _>(&density, 2, 2), Ok(gs(&[1, 0, 0, 0])));
    assert_eq!(
        partial_trace_density_subsystem::<Whole, _>(&density, &[2, 2], &[0]),
        Ok(gs(&[0, 0, 0, 1]))
    );
    density[1] = g(1, 0);
    assert_eq!(
        partial_trace_density::<Whole, _>(&density, 2, 2),
        Err(QmbedError::InvalidOptions(Reason::Text("density matrix must be Hermitian")))
    );
}

#[test]
fn tracing_keeps_the_weight() {
    for place in 0..6 {
        let mut state = gs(&[0; 6]);
        state[place] = g(0, 1);
        let reduced = partial_trace::<Whole, _>(&state, 3, 2).unwrap();
        let expected: Vec<_> =
            (0..3).map(|row| if row == place / 2 { g(1, 0) } else { g(0, 0) }).collect();
        let diagonal: Vec<_> = (0..3).map(|row| reduced[4 * row]).collect();
        assert_eq!(diagonal, expected);
    }
}

#[test]
fn sector_density_matrices() {
    let none: Vec<NoncommutingGroup<Turn>> = vec![];
    let states = [0b01u128, 0b10];
    let reduced =
        partial_trace_sector_state::<Whole, Turn, u128, Gaussian>(&gs(&[1, 0]), &states, 2, &[0], &none)
            .unwrap();
    assert_eq!(reduced, gs(&[0, 0, 0, 1]));
    let mixed = partial_trace_sector_density::<Whole, Turn, u128, Gaussian>(
        &gs(&[1, 0, 0, 0]),
        &states,
        2,
        &[1],
        &none,
    )
    .unwrap();
    assert_eq!(mixed, gs(&[1, 0, 0, 0]));
    assert_eq!(
        partial_trace_sector_state::<Whole, Turn, u128, Gaussian>(&gs(&[1]), &states, 2, &[0], &none)
            .err(),
        Some(QmbedError::DimensionMismatch(
            Reason::Text("sector amplitudes and basis states must have the same length")
        ))
    );
    assert_eq!(
        partial_trace_sector_state::<Whole, Turn, u128, Gaussian>(
            &gs(&[1, 0]),
            &[1u128, 1],
            2,
            &[0],
            &none
        )
        .err(),
        Some(QmbedError::InvalidOptions(Reason::Text("sector basis states must be unique")))
    );
}

#[test]
fn subsystem_indices_split_and_join() {
    let map = subsystem_index_map(&[2, 3], &[1]).unwrap();
    assert_eq!(map.subsystem_dimension, 3);
    assert_eq!(map.environment_dimension, 2);
    assert_eq!(map.full_dimension, 6);
    let mut seen = std::collections::HashSet::new();
    for global in 0..6 {
        let inner = map.subsystem_indices[global];
        let outer = map.environment_indices[global];
        assert_eq!(outer + 2 * inner, global);
        assert!(seen.insert((inner, outer)));
    }
    assert_eq!(subsystem_dimensions(&[2, 3], &[0]), Ok((2, 3)));
    assert_eq!(
        subsystem_dimensions(&[2, 3], &[0, 0]),
        Err(QmbedError::InvalidOptions(Reason::Text("retained subsystem sites must be unique")))
    );
    assert_eq!(
        subsystem_dimensions(&[2, 3], &[2]),
        Err(QmbedError::InvalidSite { site: 2, sites: 2 })
    );
    assert_eq!(
        subsystem_dimensions(&[2, 0], &[0]),
        Err(QmbedError::InvalidOptions(
            Reason::Text("local dimensions must be a nonempty list of positive values")
        ))
    );
}

#[test]
fn fermionic_phases_of_a_cut() {
    assert_eq!(fermionic_subsystem_phases(&[2, 2], &[0]), Ok(vec![1, 1, 1, -1]));
    assert_eq!(fermionic_subsystem_phases(&[2, 2], &[1]), Ok(vec![1, 1, 1, 1]));
    assert_eq!(
        apply_fermionic_subsystem_phases(&gs(&[1, 2, 3, 4]), &[2, 2], &[0]),
        Ok(gs(&[1, 2, 3, -4]))
    );
    let mut density = gs(&[0; 16]);
    density[3] = g(7, 0);
    let changed = apply_fermionic_subsystem_phases_density(&density, &[2, 2], &[0]).unwrap();
    assert_eq!(changed[3], g(-7, 0));
    assert_eq!(
        noncommuting_subsystem_phases(&[2, 2], &[0], &[vec![0]]),
        Ok(vec![1, 1, 1, 1])
    );
    assert_eq!(
        noncommuting_subsystem_phases(&[2, 3], &[1], &[vec![0, 1]]),
        Err(QmbedError::InvalidOptions(Reason::NotBinary { site: 1 }))
    );
    assert_eq!(
        noncommuting_subsystem_phases(&[2, 2], &[0], &[vec![0, 0]]),
        Err(QmbedError::InvalidOptions(Reason::Text("a noncommuting group cannot repeat a site")))
    );
    assert_eq!(
        noncommuting_subsystem_phases(&[2, 2], &[0], &[vec![0], vec![0]]),
        Err(QmbedError::InvalidOptions(Reason::Text("noncommuting groups must be disjoint")))
    );
    assert_eq!(
        apply_noncommuting_subsystem_phases(&gs(&[1, 2, 3, 4]), &[2, 2], &[0], &[vec![0, 1]]),
        Ok(gs(&[1, 2, 3, -4]))
    );
}

#[test]
fn exchange_phases_beyond_signs() {
    let quarter = NoncommutingGroup::new(vec![0, 1], Turn { steps: 1, circle: 4 }).unwrap();
    let phases = noncommuting_subsystem_exchange_phases(&[2, 2], &[0], &vec![quarter.clone()]).unwrap();
    assert_eq!(phases[3].steps * 4, phases[3].circle);
    assert_eq!(
        apply_noncommuting_subsystem_exchange_phases(&gs(&[1, 1, 1, 1]), &[2, 2], &[0], &vec![quarter]),
        Ok(vec![g(1, 0), g(1, 0), g(1, 0), g(0, -1)])
    );
    assert_eq!(
        NoncommutingGroup::new(vec![0], Turn { steps: 1, circle: 0 }).err(),
        Some(QmbedError::InvalidOptions(
            Reason::Text("a noncommuting exchange phase must be finite and have unit magnitude")
        ))
    );
}

#[test]
fn sector_states_split_at_a_cut() {
    let groups = fermionic_groups(&[vec![0, 1, 2]]);
    let layout = binary_sector_subsystem_layout(3, &[2, 0], &groups).unwrap();
    assert_eq!(layout.subsystem_dimension(), 4);
    assert!(split_binary_sector_state(0b101u128, &layout, &groups).is_ok());
    assert_eq!(
        binary_sector_subsystem_layout(0, &[], &groups).err(),
        Some(QmbedError::InvalidOptions(Reason::Text("a binary subsystem requires at least one site")))
    );
}

#[test]
fn canonical_side_is_shared() {
    assert_eq!(canonical_schmidt_sites(&[2, 2], &[1]), Ok(vec![0]));
    assert_eq!(canonical_schmidt_sites(&[2, 2], &[0]), Ok(vec![0]));
    assert_eq!(canonical_schmidt_sites(&[2, 2, 2], &[2, 1]), Ok(vec![0]));
    assert_eq!(canonical_schmidt_sites(&[2, 2, 2], &[0]), Ok(vec![0]));
}

#[test]
fn evolution_in_a_complete_eigensystem() {
    let trajectory =
        ed_state_vs_time(&gs(&[1, 1]), &ws(&[0, 1]), &axes(), &ws(&[0, 1, 2, -1])).unwrap();
    assert_eq!(trajectory.states[0], gs(&[1, 1]));
    assert_eq!(trajectory.states[1], vec![g(1, 0), g(0, -1)]);
    assert_eq!(trajectory.states[2], gs(&[1, -1]));
    assert_eq!(trajectory.states[3], vec![g(1, 0), g(0, 1)]);
    let observed = observables_vs_time(&trajectory, &vec![("x".to_string(), flip())]).unwrap();
    assert_eq!(observed[0], vec![g(2, 0), g(0, 0), g(-2, 0), g(0, 0)]);
    assert_eq!(
        observables_vs_time(&trajectory, &vec![("x".to_string(), flip()), ("x".to_string(), flip())])
            .err(),
        Some(QmbedError::InvalidOptions(Reason::Text("observable names must be nonempty and unique")))
    );
    assert_eq!(
        ed_state_vs_time(&gs(&[1, 1]), &ws(&[0, 1]), &axes(), &ws(&[])).err(),
        Some(QmbedError::DimensionMismatch(
            Reason::Text("complete eigensystem, state, and finite nonempty times are required")
        ))
    );
    let densities =
        ed_density_vs_time(&gs(&[1, 1, 1, 1]), &ws(&[0, 1]), &axes(), &ws(&[1])).unwrap();
    assert_eq!(densities[0], vec![g(1, 0), g(0, 1), g(0, -1), g(1, 0)]);
    assert!(ed_density_vs_time(&gs(&[1]), &ws(&[0, 1]), &axes(), &ws(&[1])).is_err());
}

#[test]
fn spectra_of_density_matrices() {
    assert_eq!(density_matrix_spectrum(&gs(&[1, 0, 0, 0]), 2, &DiagonalOnly), Ok(ws(&[0, 1])));
    assert_eq!(
        density_matrix_spectrum(&gs(&[1]), 2, &DiagonalOnly),
        Err(QmbedError::DimensionMismatch(Reason::Text("density matrix shape does not match its dimension")))
    );
    assert_eq!(
        density_matrix_spectrum(&vec![g(1, 0), g(1, 0), g(0, 0), g(0, 0)], 2, &DiagonalOnly),
        Err(QmbedError::InvalidOptions(Reason::Text("density matrix must be Hermitian")))
    );
    assert_eq!(
        density_matrix_spectrum(&gs(&[2, 0, 0, -1]), 2, &DiagonalOnly),
        Err(QmbedError::InvalidOptions(Reason::Text("density matrix is not positive semidefinite")))
    );
    assert_eq!(
        density_matrix_spectrum(&gs(&[-1, 0, 0, -1]), 2, &DiagonalOnly),
        Err(QmbedError::InvalidOptions(
            Reason::Text("density matrix must have a finite nonnegative real trace")
        ))
    );
    assert_eq!(
        density_matrix_spectrum(&gs(&[1, 1, 1, 1]), 2, &DiagonalOnly),
        Err(QmbedError::NonConvergence { iterations: 1 })
    );
}

#[test]
fn product_states_are_not_entangled() {
    let state = gs(&[0, 1, 0, 0]);
    let order = EntropyOrder::VonNeumann;
    assert_eq!(entanglement_spectrum(&state, 2, 2, &DiagonalOnly), Ok(ws(&[0, 1])));
    assert_eq!(entanglement_entropy(&state, 2, 2, order, &DiagonalOnly), Ok(w(0)));
    assert_eq!(
        entanglement_entropy_batch(&vec![state.clone(), state.clone()], 2, 2, order, &DiagonalOnly),
        Ok(ws(&[0, 0]))
    );
    assert_eq!(
        entanglement_spectrum_subsystem(&state, &[2, 2], &[0], &DiagonalOnly),
        Ok(ws(&[0, 1]))
    );
    assert_eq!(
        entanglement_entropy_subsystem(&state, &[2, 2], &[0], order, &DiagonalOnly),
        Ok(w(0))
    );
    let mut density = gs(&[0; 16]);
    density[5] = g(1, 0);
    assert_eq!(entanglement_spectrum_density(&density, 2, 2, &DiagonalOnly), Ok(ws(&[0, 1])));
    assert_eq!(entanglement_entropy_density(&density, 2, 2, order, &DiagonalOnly), Ok(w(0)));
    assert_eq!(
        entanglement_spectrum_density_subsystem(&density, &[2, 2], &[1], &DiagonalOnly),
        Ok(ws(&[0, 1]))
    );
    assert_eq!(
        entanglement_entropy_density_subsystem(&density, &[2, 2], &[1], order, &DiagonalOnly),
        Ok(w(0))
    );
    assert_eq!(
        entanglement_entropy(&gs(&[1]), 2, 2, EntropyOrder::Renyi(w(1)), &DiagonalOnly),
        Err(QmbedError::InvalidOptions(
            Reason::Text("Renyi order must be positive, finite, and different from one")
        ))
    );
}

#[test]
fn sector_and_canonical_spectra() {
    let none: Vec<NoncommutingGroup<Turn>> = vec![];
    let states = [0b01u128, 0b10];
    let spectrum: Result<Vec<Whole>, QmbedError> =
        entanglement_spectrum_sector(&gs(&[1, 0]), &states, 2, &[0], &none, &DiagonalOnly);
    assert_eq!(spectrum, Ok(ws(&[0, 1])));
    assert_eq!(
        entanglement_entropy_sector(
            &gs(&[1, 0]),
            &states,
            2,
            &[0],
            &none,
            EntropyOrder::VonNeumann,
            &DiagonalOnly
        ),
        Ok(w(0))
    );
    let state = gs(&[0, 0, 0, 1]);
    let one: Result<Vec<Whole>, QmbedError> =
        canonical_schmidt_spectrum_subsystem(&state, &[2, 2], &[1], &[vec![0, 1]], &DiagonalOnly);
    assert_eq!(one, Ok(ws(&[0, 1])));
    let other: Result<Vec<Whole>, QmbedError> =
        canonical_schmidt_spectrum_subsystem_with_exchange_phases(
            &state,
            &[2, 2],
            &[0],
            &fermionic_groups(&[vec![0, 1]]),
            &DiagonalOnly,
        );
    assert_eq!(other, one);
    let many: Result<Vec<Whole>, QmbedError> = entanglement_spectrum_sector(
        &gs(&[1, 0]),
        &states,
        2,
        &(0..200).collect::<Vec<usize>>(),
        &none,
        &DiagonalOnly,
    );
    assert_eq!(
        many,
        Err(QmbedError::DimensionMismatch(
            Reason::Text("retained subsystem is too large for a dense entanglement spectrum")
        ))
    );
}

#[test]
fn coherent_vacuum() {
    assert_eq!(coherent_state::<Whole, _>(g(0, 0), 3), Ok(gs(&[1, 0, 0])));
    assert_eq!(
        coherent_state::<Whole, _>(g(0, 0), 0),
        Err(QmbedError::InvalidOptions(
            Reason::Text("coherent-state amplitude must be finite and the cutoff positive")
        ))
    );
}

#[test]
fn exchange_phases_of_densities_stand_on_both_axes() {
    let mut density = gs(&[0; 16]);
    density[3] = g(7, 0);
    density[12] = g(7, 0);
    density[15] = g(2, 0);
    let signed =
        apply_noncommuting_subsystem_phases_density(&density, &[2, 2], &[0], &[vec![0, 1]]).unwrap();
    assert_eq!(signed[3], g(-7, 0));
    assert_eq!(signed[12], g(-7, 0));
    assert_eq!(signed[15], g(2, 0));
    let quarter = NoncommutingGroup::new(vec![0, 1], Turn { steps: 1, circle: 4 }).unwrap();
    let turned =
        apply_noncommuting_subsystem_exchange_phases_density(&density, &[2, 2], &[0], &vec![quarter])
            .unwrap();
    assert_eq!(turned[3], g(0, 7));
    assert_eq!(turned[12], g(0, -7));
    assert_eq!(turned[15], g(2, 0));
    assert!(
        apply_noncommuting_subsystem_phases_density(&gs(&[1; 4]), &[2, 2], &[0], &[vec![0, 1]]).is_err()
    );
}

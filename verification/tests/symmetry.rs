use qmbed::amplitudes::Turn;
use qmbed::basis::Basis;
use qmbed::closure_map::{ClosureSymmetryMap, ImageTable};
use qmbed::error::{QmbedError, Reason};
use qmbed::fermion::SpinlessFermionBasis1D;
use qmbed::general::GeneralBasis;
use qmbed::lattice::{reflect_lattice_state, rotate_lattice_state};
use qmbed::lattice_map::{ExchangeStatistics, LatticeSymmetryMap};
use qmbed::lattice_sectors::{spin_symmetry_sector, translate_fermion_state};
use qmbed::linear::{Gaussian, MatrixFormat};
use qmbed::matrix_symmetry::{
    identity_matrix, multiply_square_matrices, validate_unitary_matrix, MatrixSymmetryReducer,
};
use qmbed::permutation::{check_permutation, checked_lcm, permutation_period};
use qmbed::projector::BasisProjector;
use qmbed::reduction::Reduction;
use qmbed::spin::SpinBasis1D;
use qmbed::symmetry::{RepresentativeOrdering, SymmetryMap, SymmetryReducer};

fn shift(sites: usize) -> LatticeSymmetryMap {
    let destinations: Vec<usize> = (0..sites).map(|site| (site + 1) % sites).collect();
    LatticeSymmetryMap::site_permutation(2, destinations).unwrap()
}

fn g(re: i64, im: i64) -> Gaussian {
    Gaussian { re, im }
}

#[test]
fn rotations_compose_and_close() {
    let state = 0b10110;
    let twice = rotate_lattice_state(rotate_lattice_state(state, 1, 5, 2), 2, 5, 2);
    assert_eq!(twice, rotate_lattice_state(state, 3, 5, 2));
    assert_eq!(rotate_lattice_state(state, 5, 5, 2), state);
    assert_eq!(rotate_lattice_state(5, 1, 3, 3), 15);
}

#[test]
fn reflection_undoes_itself_and_reverses_rotation() {
    let state = 0b10110;
    assert_eq!(reflect_lattice_state(reflect_lattice_state(state, 5, 2), 5, 2), state);
    let left = reflect_lattice_state(rotate_lattice_state(state, 2, 5, 2), 5, 2);
    let right = rotate_lattice_state(reflect_lattice_state(state, 5, 2), 3, 5, 2);
    assert_eq!(left, right);
}

#[test]
fn fermions_change_sign_across_the_boundary() {
    assert_eq!(translate_fermion_state(0b1001, 1, 4), (0b0011, true));
    assert_eq!(translate_fermion_state(0b0001, 1, 4), (0b0010, false));
}

#[test]
fn permutations_and_periods() {
    assert!(check_permutation(&vec![2, 0, 1]));
    assert!(!check_permutation(&vec![0, 0, 1]));
    assert_eq!(permutation_period(&vec![1, 0, 3, 4, 2]), Ok(6));
    assert_eq!(checked_lcm(4, 6), Ok(12));
    assert!(checked_lcm(usize::MAX, usize::MAX - 1).is_err());
}

#[test]
fn lattice_map_closes_at_its_period() {
    let map = shift(4);
    assert_eq!(LatticeSymmetryMap::period(&map), 4);
    let mut state = 0b0010u128;
    for _ in 0..4 {
        let (image, phase) = SymmetryMap::<u128>::apply(&map, state).unwrap();
        assert_eq!(phase.steps, 0);
        state = image;
    }
    assert_eq!(state, 0b0010);
    assert_eq!(SymmetryMap::<u128>::apply(&map, 16), Err(QmbedError::StateNotInBasis));
    assert_eq!(map.statistics(), ExchangeStatistics::Distinguishable);
}

#[test]
fn lattice_map_refusals() {
    assert_eq!(
        LatticeSymmetryMap::site_permutation(2, vec![0, 0]).err(),
        Some(QmbedError::IncompatibleSymmetry("symmetry site destinations must be a bijection"))
    );
    assert_eq!(
        LatticeSymmetryMap::site_permutation(2, vec![]).err(),
        Some(QmbedError::InvalidSector(Reason::Text("a lattice symmetry requires sites and local states")))
    );
    assert_eq!(
        LatticeSymmetryMap::new(
            2,
            vec![0, 1],
            Some(vec![vec![0, 0], vec![0, 1]]),
            ExchangeStatistics::Distinguishable
        )
        .err(),
        Some(QmbedError::IncompatibleSymmetry("every local-state map must be a permutation"))
    );
    assert_eq!(
        LatticeSymmetryMap::new(3, vec![0, 1], None, ExchangeStatistics::Fermionic).err(),
        Some(QmbedError::InvalidOptions(Reason::Text("fermionic lattice maps require binary occupation")))
    );
}

#[test]
fn fermionic_map_turns_the_sign() {
    let map = LatticeSymmetryMap::fermionic_orbital_permutation(vec![1, 0]).unwrap();
    let (image, phase) = SymmetryMap::<u128>::apply(&map, 0b11).unwrap();
    assert_eq!(image, 0b11);
    assert_eq!(phase.steps * 2, phase.circle);
    let (single, plain) = SymmetryMap::<u128>::apply(&map, 0b01).unwrap();
    assert_eq!(single, 0b10);
    assert_eq!(plain.steps, 0);
}

#[test]
fn orbits_are_closed_and_named_by_their_minimum() {
    let reducer = SymmetryReducer::new().with_map(shift(4), 0);
    let trace = reducer.trace(0b0011u128).unwrap();
    assert_eq!(trace.states().len(), 4);
    assert!(trace.compatible());
    let orbit = reducer.orbit(0b1100u128).unwrap();
    assert_eq!(*orbit.representative(), 0b0011);
    assert_eq!(orbit.orbit_size(), 4);
    assert!(orbit.is_compatible());
    let largest = reducer.orbit_with_ordering(0b1100u128, RepresentativeOrdering::Maximum).unwrap();
    assert_eq!(*largest.representative(), 0b1100);
    assert_eq!(reducer.generators(), 1);
    assert_eq!(reducer.period_product(), Ok(4));
    let short = reducer.orbit_states(0b0101u128).unwrap();
    assert_eq!(short.len(), 2);
}

#[test]
fn generator_words_lead_to_the_representative() {
    let reducer = SymmetryReducer::new().with_map(shift(4), 0);
    let orbit = reducer.orbit(0b0100u128).unwrap();
    let mut state = 0b0100u128;
    for _ in orbit.generator_word() {
        state = SymmetryMap::<u128>::apply(&shift(4), state).unwrap().0;
    }
    assert_eq!(state, *orbit.representative());
}

#[test]
fn incompatible_orbits_are_left_out() {
    let reducer = SymmetryReducer::new().with_map(shift(4), 1);
    assert!(!reducer.orbit(0b0101u128).unwrap().is_compatible());
    assert!(reducer.orbit(0b0101u128).unwrap().phase().is_none());
    let parent = SpinBasis1D::builder(4).up(2).build().unwrap();
    let basis = GeneralBasis::new(parent, reducer).unwrap();
    assert_eq!(basis.len(), 1);
    assert_eq!(basis.state(0), Ok(0b0011));
}

#[test]
fn general_sectors_cover_the_whole_without_overlap() {
    let mut total = 0;
    for sector in 0..6 {
        let parent = SpinBasis1D::builder(6).up(3).build().unwrap();
        let basis =
            GeneralBasis::new(parent, SymmetryReducer::new().with_map(shift(6), sector)).unwrap();
        total += basis.len();
        for row in 0..basis.len() {
            let state = basis.state(row).unwrap();
            assert_eq!(basis.index(state), Ok(row));
            assert_eq!(basis.representative(state), Ok(state));
        }
    }
    assert_eq!(total, 20);
}

#[test]
fn general_rows_are_extreme_members_of_orbits() {
    let basis = |ordering| {
        let parent = SpinBasis1D::builder(3).build().unwrap();
        let reducer = SymmetryReducer::new().with_map(shift(3), 0);
        GeneralBasis::from_reducer_with_ordering(parent, reducer, ordering).unwrap()
    };
    let least = basis(RepresentativeOrdering::Minimum);
    let greatest = basis(RepresentativeOrdering::Maximum);
    let orbits: [&[u128]; 4] = [&[0], &[1, 2, 4], &[3, 5, 6], &[7]];
    assert_eq!(least.len(), 4);
    assert_eq!(greatest.len(), 4);
    for orbit in orbits {
        for &state in orbit {
            assert_eq!(least.representative(state), Ok(orbit[0]));
            assert_eq!(greatest.representative(state), Ok(orbit[orbit.len() - 1]));
            // a unit phase over the root of the orbit size, once for each member
            let (phase, size) = least.symmetry_amplitude(state).unwrap();
            assert_eq!(phase.steps % phase.circle, 0);
            assert_eq!(size, orbit.len());
        }
    }
    let rows: Vec<u128> = (0..4).map(|row| least.state(row).unwrap()).collect();
    assert_eq!(rows, vec![0, 1, 3, 7]);
    let rows: Vec<u128> = (0..4).map(|row| greatest.state(row).unwrap()).collect();
    assert_eq!(rows, vec![0, 4, 6, 7]);
}

#[test]
fn sectors_do_not_ask_for_parents_in_order() {
    for parents in [vec![0u128, 3, 5, 6, 7], vec![6, 0, 7, 3, 5]] {
        let sector = spin_symmetry_sector(&parents, 3, 2, Some(-2), None).unwrap();
        assert_eq!(sector.momentum, Some(1));
        assert_eq!(sector.orbits.states, vec![3]);
        assert_eq!(sector.orbits.orbit_sizes, vec![3]);
        let sector = spin_symmetry_sector(&parents, 3, 2, Some(0), None).unwrap();
        assert_eq!(sector.orbits.states, vec![0, 3, 7]);
        assert_eq!(sector.orbits.orbit_sizes, vec![1, 3, 1]);
    }
}

#[test]
fn general_and_lattice_sectors_agree() {
    let parent = SpinBasis1D::builder(6).up(2).build().unwrap();
    let general = GeneralBasis::new(parent, SymmetryReducer::new().with_map(shift(6), 0)).unwrap();
    let lattice = SpinBasis1D::builder(6).up(2).momentum(0).build().unwrap();
    assert_eq!(general.len(), lattice.len());
    for row in 0..general.len() {
        assert_eq!(general.state(row), lattice.state(row));
        let state = general.state(row).unwrap();
        assert_eq!(general.orbit_size(state), lattice.orbit_size_at(state));
    }
    let image = general.reduction_image(0b110000).unwrap().unwrap();
    assert_eq!(*image.representative(), 0b000011);
    assert_eq!(image.orbit_size(), 6);
}

#[test]
fn a_map_that_leaves_the_parent_is_refused() {
    let parent = SpinBasis1D::builder(2).up(1).build().unwrap();
    let flip = LatticeSymmetryMap::new(
        2,
        vec![0, 1],
        Some(vec![vec![1, 0], vec![0, 1]]),
        ExchangeStatistics::Distinguishable,
    )
    .unwrap();
    assert_eq!(
        GeneralBasis::new(parent, SymmetryReducer::new().with_map(flip, 0)).err(),
        Some(QmbedError::IncompatibleSymmetry("a symmetry map leaves the parent basis"))
    );
}

#[test]
fn fermionic_general_basis() {
    let map = LatticeSymmetryMap::fermionic_orbital_permutation(vec![1, 2, 3, 0]).unwrap();
    let parent = SpinlessFermionBasis1D::builder(4).particles(2).build().unwrap();
    let basis = GeneralBasis::new(parent, SymmetryReducer::new().with_map(map, 1)).unwrap();
    let direct = SpinlessFermionBasis1D::builder(4).particles(2).momentum(1).build().unwrap();
    assert_eq!(basis.len(), direct.len());
}

#[test]
fn tables_of_images_are_symmetry_maps() {
    let unit = Turn { steps: 0, circle: 1 };
    let table = ImageTable { images: vec![(1u128, 2u128, unit), (2, 1, unit)] };
    let map = ClosureSymmetryMap::new(2, table).unwrap();
    assert_eq!(SymmetryMap::<u128>::period(&map), 2);
    assert_eq!(SymmetryMap::<u128>::apply(&map, 1), Ok((2, unit)));
    assert_eq!(SymmetryMap::<u128>::apply(&map, 3), Err(QmbedError::StateNotInBasis));
    let parent = SpinBasis1D::builder(2).up(1).build().unwrap();
    let basis = GeneralBasis::new(parent, SymmetryReducer::new().with_map(map, 0)).unwrap();
    assert_eq!(basis.len(), 1);
    let empty: ImageTable<u128, Turn> = ImageTable { images: vec![] };
    assert_eq!(
        ClosureSymmetryMap::new(0, empty).err(),
        Some(QmbedError::InvalidSector(Reason::Text("a symmetry-map period must be positive")))
    );
}

#[test]
fn a_wrong_period_is_refused() {
    let unit = Turn { steps: 0, circle: 1 };
    let table = ImageTable { images: vec![(1u128, 2u128, unit), (2, 4, unit), (4, 1, unit)] };
    let map = ClosureSymmetryMap::new(2, table).unwrap();
    let reducer = SymmetryReducer::new().with_map(map, 0);
    assert_eq!(
        reducer.trace(1u128).err(),
        Some(QmbedError::IncompatibleSymmetry(
            "a symmetry map does not close at its declared period"
        ))
    );
}

#[test]
fn square_matrices() {
    let turn = vec![g(0, 0), g(-1, 0), g(1, 0), g(0, 0)];
    let twice = multiply_square_matrices(&turn, &turn, 2);
    assert_eq!(twice, vec![g(-1, 0), g(0, 0), g(0, 0), g(-1, 0)]);
    assert_eq!(identity_matrix::<Gaussian>(2), vec![g(1, 0), g(0, 0), g(0, 0), g(1, 0)]);
    assert_eq!(validate_unitary_matrix(&turn, 2, 0), Ok(()));
    assert_eq!(
        validate_unitary_matrix(&vec![g(2, 0)], 1, 0),
        Err(QmbedError::InvalidSector(Reason::Text("matrix symmetry generators must be unitary")))
    );
}

#[test]
fn matrix_reducer_orbits_and_groups() {
    let reducer: MatrixSymmetryReducer<u128, LatticeSymmetryMap, Gaussian> =
        MatrixSymmetryReducer::new(2, 0, 0).unwrap();
    let turn = vec![g(0, 0), g(-1, 0), g(1, 0), g(0, 0)];
    let reducer = reducer.with_map(shift(4), turn).unwrap();
    assert_eq!(reducer.generator_count(), 1);
    let mut orbit = reducer.physical_orbit(0b0001).unwrap();
    orbit.sort();
    assert_eq!(orbit, vec![1, 2, 4, 8]);
    let group = reducer.orbit_group(&orbit).unwrap();
    assert_eq!(group.len(), 4);
    let missing: Result<MatrixSymmetryReducer<u128, LatticeSymmetryMap, Gaussian>, QmbedError> =
        MatrixSymmetryReducer::new(2, 2, 0);
    assert_eq!(
        missing.err(),
        Some(QmbedError::InvalidSector(
            Reason::Text("a matrix symmetry representation needs a positive dimension and valid row")
        ))
    );
}

#[test]
fn matrix_reducer_refuses_open_representations() {
    let reducer: MatrixSymmetryReducer<u128, LatticeSymmetryMap, Gaussian> =
        MatrixSymmetryReducer::new(2, 0, 0).unwrap();
    let turn = vec![g(0, 0), g(-1, 0), g(1, 0), g(0, 0)];
    assert_eq!(
        reducer.with_map(shift(2), turn).err(),
        Some(QmbedError::IncompatibleSymmetry(
            "a representation generator does not close at the physical map period"
        ))
    );
    let other: MatrixSymmetryReducer<u128, LatticeSymmetryMap, Gaussian> =
        MatrixSymmetryReducer::new(2, 0, 0).unwrap();
    assert_eq!(
        other.with_map(shift(2), vec![g(1, 0)]).err(),
        Some(QmbedError::InvalidSector(Reason::Length {
            what: "matrix symmetry generator entries",
            found: 1,
            expected: 4
        }))
    );
}

#[test]
fn trivial_matrix_subspace_keeps_every_seed() {
    let reducer: MatrixSymmetryReducer<u128, LatticeSymmetryMap, Gaussian> =
        MatrixSymmetryReducer::new(1, 0, 0).unwrap();
    let still = LatticeSymmetryMap::site_permutation(2, vec![0, 1]).unwrap();
    let seeds = SpinBasis1D::builder(2).build().unwrap();
    assert_eq!(
        reducer.subspace(&seeds).err(),
        Some(QmbedError::InvalidSector(
            Reason::Text("a matrix symmetry representation requires at least one generator")
        ))
    );
    let reducer = reducer.with_map(still, vec![g(1, 0)]).unwrap();
    let subspace = reducer.subspace(&seeds).unwrap();
    assert_eq!(subspace.dimension(), 4);
    assert_eq!(subspace.physical_dimension(), 4);
    assert_eq!(subspace.labels().len(), 4);
    let projector = subspace.projector(&seeds, MatrixFormat::Csc).unwrap();
    assert_eq!(projector.rows(), 4);
    assert_eq!(projector.columns(), 4);
    assert_eq!(projector.triplets().len(), 4);
}

#[test]
fn sectors_lift_into_their_parent() {
    let sector = |up: usize| {
        let parent = SpinBasis1D::builder(4).up(up).build().unwrap();
        GeneralBasis::new(parent, SymmetryReducer::new().with_map(shift(4), 0)).unwrap()
    };
    let projector = BasisProjector::<Gaussian>::from_general(&sector(4)).unwrap();
    assert_eq!(projector.lifted(&vec![g(3, 0)]), Ok(vec![g(3, 0)]));
    // the root of an orbit size is no Gaussian integer
    assert!(BasisProjector::<Gaussian>::from_general(&sector(2)).is_err());
}

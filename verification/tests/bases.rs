use qmbed::amplitudes::{LocalFactor, Turn};
use qmbed::basis::{Basis, Factor};
use qmbed::boson::BosonBasis1D;
use qmbed::error::{OperatorFault, QmbedError, Reason};
use qmbed::fermion::{apply_fermion, SpinlessFermionBasis1D};
use qmbed::occupation::LocalOccupationConstraint;
use qmbed::reduction::{index_transition, Reduction};
use qmbed::spin::{SpinBasis1D, SpinNormalization};
use qmbed::spinful::SpinfulFermionBasis1D;

fn all_states<B: Basis>(basis: &B) -> Vec<B::State> {
    (0..basis.len()).map(|index| basis.state(index).unwrap()).collect()
}

#[test]
fn spin_chain_lists_every_state() {
    let basis = SpinBasis1D::builder(3).build().unwrap();
    assert_eq!(all_states(&basis), (0..8u128).collect::<Vec<_>>());
    assert_eq!(basis.state(8), Err(QmbedError::StateNotInBasis));
    assert_eq!(basis.index(8), Err(QmbedError::StateNotInBasis));
    assert!(!basis.is_empty());
}

#[test]
fn index_inverts_state_in_a_magnetization_sector() {
    let basis = SpinBasis1D::builder(6).up(3).build().unwrap();
    assert_eq!(basis.len(), 20);
    for index in 0..basis.len() {
        let state = basis.state(index).unwrap();
        assert_eq!(state.count_ones(), 3);
        assert_eq!(basis.index(state), Ok(index));
    }
}

#[test]
fn spin_one_sector_by_digit_sum() {
    let basis = SpinBasis1D::builder(2).spin_twice(2).up(2).build().unwrap();
    assert_eq!(all_states(&basis), vec![2, 4, 6]);
    assert_eq!(basis.spin_twice(), 2);
    assert_eq!(basis.up(), Some(2));
}

#[test]
fn momentum_sectors_cover_the_whole() {
    let mut total = 0;
    for momentum in 0..6 {
        let basis = SpinBasis1D::builder(6).up(3).momentum(momentum).build().unwrap();
        total += basis.len();
    }
    assert_eq!(total, 20);
    let zero = SpinBasis1D::builder(4).up(2).momentum(0).build().unwrap();
    assert_eq!(all_states(&zero), vec![0b0011, 0b0101]);
    assert_eq!(zero.orbit_size_at(0b0011), Ok(4));
    assert_eq!(zero.orbit_size_at(0b0101), Ok(2));
    assert_eq!(zero.momentum(), Some(0));
}

#[test]
fn momentum_is_taken_modulo_the_sites() {
    let basis = SpinBasis1D::builder(4).up(1).momentum(-1).build().unwrap();
    assert_eq!(basis.momentum(), Some(3));
    assert_eq!(basis.len(), 1);
}

#[test]
fn parity_splits_the_zero_momentum_sector() {
    let even = SpinBasis1D::builder(6).up(3).momentum(0).parity(1).build().unwrap();
    let odd = SpinBasis1D::builder(6).up(3).momentum(0).parity(-1).build().unwrap();
    let both = SpinBasis1D::builder(6).up(3).momentum(0).build().unwrap();
    assert_eq!(even.len() + odd.len(), both.len());
    assert_eq!(even.parity(), Some(1));
}

#[test]
fn spin_builder_refusals() {
    assert_eq!(
        SpinBasis1D::builder(2).spin_twice(0).build().err(),
        Some(QmbedError::InvalidSector(Reason::Text("spin_twice must be positive")))
    );
    assert_eq!(
        SpinBasis1D::builder(2).spin_twice(2).pauli(true).build().err(),
        Some(QmbedError::InvalidOptions(
            Reason::Text("the Pauli convention is defined only for spin one-half")
        ))
    );
    assert_eq!(
        SpinBasis1D::builder(4).parity(2).build().err(),
        Some(QmbedError::InvalidSector(Reason::Text("parity must be either -1 or +1")))
    );
    assert_eq!(
        SpinBasis1D::builder(4).momentum(1).parity(1).build().err(),
        Some(QmbedError::IncompatibleSymmetry(
            "parity can share a one-dimensional sector with momentum only at k=0 or k=pi"
        ))
    );
    assert_eq!(
        SpinBasis1D::builder(4).up(9).build().err(),
        Some(QmbedError::InvalidSector(Reason::Text("particle count exceeds site count")))
    );
}

#[test]
fn spin_operators_branch_and_scale() {
    let basis = SpinBasis1D::builder(2).build().unwrap();
    let flipped = basis.apply_local_transitions(0b01, "+-", &[1, 0]).unwrap();
    assert_eq!(flipped.len(), 1);
    assert_eq!(flipped[0].0, 0b10);
    let lower = LocalFactor { numerator: 1, halved: false, imaginary: false, radicand: 1 };
    assert_eq!(flipped[0].1, vec![Factor::Local(lower), Factor::Local(lower)]);
    let across = basis.unreduced_local_transitions(0b00, "x", &[1]).unwrap();
    assert_eq!(across.len(), 1);
    let (target, factors) = across.get(0).unwrap();
    assert_eq!(target, 0b10);
    assert_eq!(
        factors,
        &vec![LocalFactor { numerator: 1, halved: true, imaginary: false, radicand: 1 }]
    );
    assert!(across.get(1).is_none());
    let one = SpinBasis1D::builder(1).spin_twice(2).build().unwrap();
    let both = one.unreduced_local_transitions(1, "x", &[0]).unwrap();
    assert_eq!(both.len(), 2);
    assert_eq!(both.get(0).unwrap().0, 2);
    assert_eq!(both.get(1).unwrap().0, 0);
    assert_eq!(both.get(0).unwrap().1[0].radicand, 2);
}

#[test]
fn spin_z_values_follow_the_normalization() {
    let spin = SpinBasis1D::builder(1).build().unwrap();
    let pauli = SpinBasis1D::builder(1).pauli(true).build().unwrap();
    assert_eq!(pauli.normalization(), SpinNormalization::PauliCartesian);
    assert!(pauli.pauli());
    assert!(!spin.pauli());
    let ladder = SpinBasis1D::builder(1).normalization(SpinNormalization::Pauli).build().unwrap();
    assert_eq!(
        spin.apply_local_transitions(1, "z", &[0]).unwrap()[0].1,
        vec![Factor::<Turn>::Local(LocalFactor::halves(1))]
    );
    assert_eq!(
        pauli.apply_local_transitions(0, "z", &[0]).unwrap()[0].1,
        vec![Factor::<Turn>::Local(LocalFactor::integer(-1))]
    );
    let raised = ladder.unreduced_local_transitions(0, "+", &[0]).unwrap();
    assert_eq!(raised.get(0).unwrap().1[0].numerator, 2);
}

#[test]
fn spin_operator_refusals() {
    let basis = SpinBasis1D::builder(2).build().unwrap();
    assert_eq!(
        basis.apply_local_transitions(0, "zz", &[0]).err(),
        Some(QmbedError::InvalidCoupling(Reason::Arity { symbols: 2, sites: 1 }))
    );
    assert_eq!(
        basis.apply_local_transitions(0, "z", &[2]).err(),
        Some(QmbedError::InvalidSite { site: 2, sites: 2 })
    );
    assert_eq!(
        basis.apply_local_transitions(0, "q", &[0]).err(),
        Some(QmbedError::InvalidOperator(OperatorFault::Symbol('q')))
    );
}

#[test]
fn long_operator_strings_keep_their_symbols() {
    let basis = SpinBasis1D::builder(12).build().unwrap();
    let sites: Vec<usize> = (0..12).collect();
    let moved = basis.apply_local_transitions(0, "++++++++++++", &sites).unwrap();
    assert_eq!(moved.len(), 1);
    assert_eq!(moved[0].0, (1 << 12) - 1);
    assert_eq!(moved[0].1.len(), 12);
    let all = basis.apply_local_transitions(0b11, "xxxxxxxxxxxx", &sites).unwrap();
    assert_eq!(all.len(), 1);
    assert_eq!(all[0].0, 0b1111_1111_1100);
}

#[test]
fn reduced_spin_transitions_land_on_representatives() {
    let basis = SpinBasis1D::builder(4).up(2).momentum(0).build().unwrap();
    let moved = basis.apply_local_transitions(0b0011, "+-", &[2, 1]).unwrap();
    assert_eq!(moved.len(), 1);
    assert_eq!(moved[0].0, 0b0101);
    match moved[0].1[2] {
        Factor::Reduced(factor) => {
            assert_eq!(factor.source_orbit, 4);
            assert_eq!(factor.target_orbit, 2);
        }
        Factor::Local(_) | Factor::Whole(_) => panic!("the last factor is a reduction"),
    }
    let image = basis.reduction_image(0b1100).unwrap().unwrap();
    assert_eq!(*image.representative(), 0b0011);
    assert_eq!(image.orbit_size(), 4);
    assert_eq!(basis.transition_orbit_size(0b0101), Ok(2));
    let (row, _) = index_transition(&basis, 0b1010, 4).unwrap().unwrap();
    assert_eq!(row, 1);
}

#[test]
fn boson_sector_and_ladders() {
    let basis = BosonBasis1D::builder(2, 3).particles(2).build().unwrap();
    assert_eq!(all_states(&basis), vec![2, 4, 6]);
    assert_eq!(basis.states_per_site(), 3);
    let moved = basis.apply_local(2, "+-", &[1, 0]).unwrap().unwrap();
    assert_eq!(moved.0, 4);
    assert_eq!(moved.1, vec![LocalFactor::root(2), LocalFactor::root(1)]);
    assert_eq!(basis.apply_local(6, "+", &[1]), Ok(None));
    assert_eq!(
        BosonBasis1D::builder(0, 3).build().err(),
        Some(QmbedError::InvalidSector(Reason::Text("boson sites and states_per_site must be positive")))
    );
    assert_eq!(
        BosonBasis1D::builder(2, 3).particles(5).build().err(),
        Some(QmbedError::InvalidSector(Reason::Text("particle count exceeds the local cutoff")))
    );
}

#[test]
fn particle_sector_unions_are_sorted() {
    let basis = BosonBasis1D::builder(2, 2).particle_sectors(vec![2, 0, 2]).build().unwrap();
    assert_eq!(all_states(&basis), vec![0, 3]);
    assert_eq!(basis.particle_sectors(), Some(&vec![0, 2]));
    assert_eq!(basis.operator_preserves_particle_sector("n"), Ok(true));
    assert_eq!(basis.operator_preserves_particle_sector("+"), Ok(false));
    assert_eq!(basis.operator_preserves_particle_sector("++"), Ok(true));
}

#[test]
fn fermion_signs_count_earlier_orbitals() {
    assert_eq!(apply_fermion(0b001, 1, '+'), Ok(Some((0b011, LocalFactor::integer(-1)))));
    assert_eq!(apply_fermion(0b000, 1, '+'), Ok(Some((0b010, LocalFactor::integer(1)))));
    assert_eq!(apply_fermion(0b010, 1, '+'), Ok(None));
    assert_eq!(apply_fermion(0b010, 1, 'n'), Ok(Some((0b010, LocalFactor::integer(1)))));
    assert_eq!(apply_fermion(0b010, 0, 'n'), Ok(None));
    assert_eq!(
        apply_fermion(0b010, 0, 'q'),
        Err(QmbedError::InvalidOperator(OperatorFault::Symbol('q')))
    );
}

#[test]
fn fermion_momentum_sectors_cover_the_whole() {
    let mut total = 0;
    for momentum in 0..4 {
        if let Ok(basis) = SpinlessFermionBasis1D::builder(4).particles(2).momentum(momentum).build() {
            total += basis.len();
        }
    }
    assert_eq!(total, 6);
    let basis = SpinlessFermionBasis1D::builder(4).particles(2).momentum(1).build().unwrap();
    let state = basis.state(0).unwrap();
    assert_eq!(basis.index(state), Ok(0));
    assert_eq!(
        SpinlessFermionBasis1D::builder(0).momentum(0).build().err(),
        Some(QmbedError::InvalidSector(Reason::Text("translation sectors require at least one site")))
    );
}

#[test]
fn empty_fermion_momentum_sector() {
    assert_eq!(
        SpinlessFermionBasis1D::builder(2).particles(2).momentum(0).build().err(),
        Some(QmbedError::InvalidSector(Reason::Text("the requested fermion momentum sector is empty")))
    );
    assert!(SpinlessFermionBasis1D::builder(2).particles(2).momentum(1).build().is_ok());
}

#[test]
fn spinful_sector_and_constraint() {
    let basis = SpinfulFermionBasis1D::builder(2).particles(1, 1).build().unwrap();
    assert_eq!(basis.len(), 4);
    for index in 0..basis.len() {
        let state = basis.state(index).unwrap();
        assert_eq!((state & 0b11).count_ones(), 1);
        assert_eq!((state >> 2).count_ones(), 1);
        assert_eq!(basis.index(state), Ok(index));
    }
    let single = LocalOccupationConstraint::new(2, vec![0, 1, 2]).unwrap();
    let projected = SpinfulFermionBasis1D::builder(2)
        .particles(1, 1)
        .local_occupation_constraint(single)
        .build()
        .unwrap();
    assert_eq!(projected.len(), 2);
    assert_eq!(
        SpinfulFermionBasis1D::builder(65).build().err(),
        Some(QmbedError::UnsupportedBackend(
            Reason::Text("the packed spinful backend supports at most 64 sites")
        ))
    );
    assert_eq!(
        SpinfulFermionBasis1D::builder(2).particles(3, 0).build().err(),
        Some(QmbedError::InvalidSector(Reason::Text("particle count exceeds site count")))
    );
}

#[test]
fn spinful_operators_use_a_separator() {
    let basis = SpinfulFermionBasis1D::builder(2).build().unwrap();
    let hopped = basis.apply_local(0b0001, "+-|", &[1, 0]).unwrap().unwrap();
    assert_eq!(hopped.0, 0b0010);
    let number = basis.apply_local(0b0101, "n|n", &[0, 0]).unwrap().unwrap();
    assert_eq!(number.0, 0b0101);
    assert_eq!(
        basis.apply_local(0b0001, "n|n", &[0]).err(),
        Some(QmbedError::InvalidCoupling(Reason::Arity { symbols: 2, sites: 1 }))
    );
}

#[test]
fn occupation_constraint_refusals() {
    assert_eq!(
        LocalOccupationConstraint::new(0, vec![0]).err(),
        Some(QmbedError::InvalidSector(
            Reason::Text("a local occupation constraint needs at least one species")
        ))
    );
    assert_eq!(
        LocalOccupationConstraint::new(2, vec![]).err(),
        Some(QmbedError::InvalidSector(
            Reason::Text("a local occupation constraint must allow at least one state")
        ))
    );
    assert_eq!(
        LocalOccupationConstraint::new(2, vec![4]).err(),
        Some(QmbedError::InvalidSector(
            Reason::Text("an allowed local occupation is outside the binary-species space")
        ))
    );
    let constraint = LocalOccupationConstraint::new(2, vec![2, 0, 2]).unwrap();
    assert_eq!(constraint.allowed_local_states(), &vec![0, 2]);
    assert_eq!(constraint.accepts_packed_state(0b0000, 2), Ok(true));
    assert_eq!(constraint.accepts_packed_state(0b0001, 2), Ok(false));
}

#[test]
fn fermion_symbols_act_from_the_right() {
    let basis = SpinlessFermionBasis1D::builder(3).build().unwrap();
    let (target, factors) =
        basis.unreduced_local_transition_with_symbols(0b001, &['+', '-'], &[1, 0]).unwrap().unwrap();
    assert_eq!(target, 0b010);
    assert!(!factors.is_empty());
    assert_eq!(
        basis.unreduced_local_transition(0b001, "+-", &[1, 0]).unwrap().unwrap().0,
        0b010
    );
    assert_eq!(
        basis.unreduced_local_transition_with_symbols(0b010, &['+', '-'], &[1, 0]),
        Ok(None)
    );
}

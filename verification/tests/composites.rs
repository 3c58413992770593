use qmbed::amplitudes::Turn;
use qmbed::assembly::Physical;
use qmbed::basis::{Basis, Factor, Pair};
use qmbed::boson::BosonBasis1D;
use qmbed::callback::CallbackBasis;
use qmbed::closure_map::{ClosureSymmetryMap, ImageTable};
use qmbed::error::{OperatorFault, QmbedError, Reason};
use qmbed::fermion::SpinlessFermionBasis1D;
use qmbed::general::GeneralBasis;
use qmbed::linear::Gaussian;
use qmbed::packed::{PackedBasis, PackedPhotonBasis, PackedTensorBasis};
use qmbed::photon::{photon_hspace_dim, PhotonBasis};
use qmbed::reduction::Reduction;
use qmbed::spin::SpinBasis1D;
use qmbed::spinful::SpinfulFermionBasis1D;
use qmbed::symmetry::SymmetryReducer;
use qmbed::tensor::TensorBasis;
use qmbed::user::{filter_chunks, filter_limit, LocalRule, RuleTable, UserBasis};

fn pack(basis: impl Into<PackedBasis>) -> PackedBasis {
    basis.into()
}

fn g(re: i64, im: i64) -> Gaussian {
    Gaussian { re, im }
}

#[test]
fn tensor_states_run_through_the_right_factor() {
    let product = TensorBasis::new(
        SpinBasis1D::builder(1).build().unwrap(),
        BosonBasis1D::builder(1, 3).build().unwrap(),
    )
    .unwrap();
    assert_eq!(product.len(), 6);
    assert_eq!(product.state(4), Ok(Pair { left: 1, right: 1 }));
    for index in 0..6 {
        let state = product.state(index).unwrap();
        assert_eq!(product.index(state), Ok(index));
    }
    let moved = product.apply_local(Pair { left: 0, right: 1 }, "+|-", &[0, 0]).unwrap().unwrap();
    assert_eq!(moved.0, Pair { left: 1, right: 0 });
    assert_eq!(moved.1.len(), 2);
}

#[test]
fn tensor_operators_need_one_separator() {
    let product = TensorBasis::new(
        SpinBasis1D::builder(1).build().unwrap(),
        SpinBasis1D::builder(1).build().unwrap(),
    )
    .unwrap();
    let state = Pair { left: 0, right: 0 };
    assert_eq!(
        product.apply_local_transitions(state, "zz", &[0, 0]).err(),
        Some(QmbedError::InvalidOperator(OperatorFault::Text(
            "tensor-basis operator strings must contain one `|` separator"
        )))
    );
    assert_eq!(
        product.apply_local_transitions(state, "z|z|z", &[0, 0, 0]).err(),
        Some(QmbedError::InvalidOperator(OperatorFault::Text(
            "a two-factor tensor operator contains too many separators"
        )))
    );
    assert_eq!(
        product.apply_local_transitions(state, "z|z", &[0]).err(),
        Some(QmbedError::InvalidCoupling(Reason::Text("tensor operator arity does not match its sites")))
    );
}

#[test]
fn photon_basis_with_fixed_excitations() {
    let matter = SpinBasis1D::builder(2).build().unwrap();
    let photon = BosonBasis1D::builder(1, 4).build().unwrap();
    let basis = PhotonBasis::fixed_total_excitations(matter, photon, 2, |state: u128| {
        state.count_ones() as usize
    })
    .unwrap();
    assert_eq!(basis.len(), 4);
    assert_eq!(basis.total_excitations(), Some(2));
    for index in 0..4 {
        let state = basis.state(index).unwrap();
        assert_eq!(state.left.count_ones() as u128 + state.right, 2);
        assert_eq!(basis.index(state), Ok(index));
    }
    let moved = basis.apply_local(Pair { left: 0b01, right: 1 }, "-|+", &[0, 0]).unwrap().unwrap();
    assert_eq!(moved.0, Pair { left: 0b00, right: 2 });
}

#[test]
fn photon_refusals() {
    let modes = BosonBasis1D::builder(2, 2).build().unwrap();
    assert_eq!(
        PhotonBasis::new(SpinBasis1D::builder(1).build().unwrap(), modes).err(),
        Some(QmbedError::InvalidSector(Reason::Text("PhotonBasis requires a one-mode boson basis")))
    );
    let photon = BosonBasis1D::builder(1, 2).build().unwrap();
    assert_eq!(
        PhotonBasis::fixed_total_excitations(
            SpinBasis1D::builder(1).build().unwrap(),
            photon,
            9,
            |_state: u128| 0
        )
        .err(),
        Some(QmbedError::InvalidSector(Reason::Text("the requested photon sector is empty")))
    );
}

#[test]
fn photon_dimensions() {
    assert_eq!(photon_hspace_dim(3, None, Some(4)), Ok(40));
    assert_eq!(photon_hspace_dim(4, Some(2), None), Ok(11));
    assert_eq!(photon_hspace_dim(4, Some(2), Some(1)), Ok(10));
    assert_eq!(
        photon_hspace_dim(5_000_000_000, Some(2), Some(0)),
        Ok(12_499_999_997_500_000_000)
    );
    assert_eq!(
        photon_hspace_dim(128, Some(64), Some(0)),
        Err(QmbedError::UnsupportedBackend(Reason::Text("photon dimension overflow")))
    );
    assert_eq!(photon_hspace_dim(2, Some(5), Some(1)), Ok(0));
    assert_eq!(
        photon_hspace_dim(0, None, Some(usize::MAX)),
        Err(QmbedError::UnsupportedBackend(Reason::Text("photon dimension overflow")))
    );
    assert_eq!(photon_hspace_dim(0, None, Some(usize::MAX - 1)), Ok(usize::MAX));
    assert_eq!(
        photon_hspace_dim(4, None, None),
        Err(QmbedError::InvalidSector(
            Reason::Text("either total excitation or photon cutoff must be finite")
        ))
    );
    assert_eq!(
        photon_hspace_dim(200, None, Some(1)),
        Err(QmbedError::UnsupportedBackend(Reason::Text("photon dimension overflow")))
    );
}

#[test]
fn packed_quantum_numbers() {
    let spin = pack(SpinBasis1D::builder(2).spin_twice(2).build().unwrap());
    assert_eq!(spin.additive_quantum_number(5), Ok(3));
    let fermion = pack(SpinlessFermionBasis1D::builder(3).build().unwrap());
    assert_eq!(fermion.additive_quantum_number(0b101), Ok(2));
    assert_eq!(fermion.additive_quantum_number(0b1000), Err(QmbedError::StateNotInBasis));
    let spinful = pack(SpinfulFermionBasis1D::builder(2).build().unwrap());
    assert_eq!(spinful.additive_quantum_number(0b1101), Ok(3));
}

#[test]
fn packed_reversal_is_undone() {
    let basis = pack(SpinBasis1D::builder(3).build().unwrap());
    let reversed = basis.reversed();
    assert_eq!(reversed.state(0), Ok(7));
    assert_eq!(reversed.index(7), Ok(0));
    let again = reversed.reversed();
    assert_eq!(again.state(0), Ok(0));
}

#[test]
fn packed_tensor_and_photon() {
    let tensor = PackedTensorBasis::new(vec![
        pack(SpinBasis1D::builder(1).build().unwrap()),
        pack(BosonBasis1D::builder(1, 3).build().unwrap()),
    ])
    .unwrap();
    assert_eq!(tensor.dimensions(), &vec![2, 3]);
    let packed = pack(tensor);
    assert_eq!(packed.len(), 6);
    assert_eq!(packed.additive_quantum_number(5), Ok(3));
    let photon = PackedPhotonBasis::new(
        pack(SpinBasis1D::builder(2).build().unwrap()),
        3,
        Some(2),
    )
    .unwrap();
    assert_eq!(photon.photon_dimension(), 4);
    assert_eq!(photon.full_dimension(), 16);
    let photon = pack(photon);
    assert_eq!(photon.len(), 4);
    for index in 0..4 {
        let state = photon.state(index).unwrap();
        assert_eq!(photon.additive_quantum_number(state), Ok(2));
    }
    assert_eq!(
        PackedTensorBasis::new(vec![pack(SpinBasis1D::builder(1).build().unwrap())])
            .err(),
        Some(QmbedError::InvalidSector(Reason::Text("a packed tensor basis requires at least two factors")))
    );
}

fn flips() -> RuleTable<u128, Gaussian> {
    RuleTable {
        names: vec!['x', 'b'],
        rules: vec![
            LocalRule { name: 'x', state: 0, site: 0, target: 1, amplitude: g(1, 0) },
            LocalRule { name: 'x', state: 1, site: 0, target: 0, amplitude: g(1, 0) },
            LocalRule { name: 'b', state: 0, site: 0, target: 0, amplitude: g(2, 0) },
            LocalRule { name: 'b', state: 0, site: 0, target: 1, amplitude: g(0, 3) },
        ],
    }
}

#[test]
fn user_operators_act_from_the_right() {
    let basis = UserBasis::new(1, vec![0u128, 1], flips()).unwrap();
    assert_eq!(basis.apply_local(0, "x", &[0]), Ok(Some((1, g(1, 0)))));
    assert_eq!(basis.apply_local(0, "xx", &[0, 0]), Ok(Some((0, g(1, 0)))));
    assert_eq!(basis.visit_user_transitions(0, "b", &[0]), Ok(vec![(0, g(2, 0)), (1, g(0, 3))]));
    assert_eq!(
        basis.apply_local(0, "b", &[0]),
        Err(QmbedError::UnsupportedBackend(
            Reason::Text("this user local action branches; use apply_local_transitions")
        ))
    );
    assert_eq!(
        basis.apply_local(0, "q", &[0]),
        Err(QmbedError::InvalidOperator(OperatorFault::Symbol('q')))
    );
    assert_eq!(
        basis.apply_local(0, "x", &[1]),
        Err(QmbedError::InvalidSite { site: 1, sites: 1 })
    );
    assert_eq!(basis.len(), 2);
    assert_eq!(basis.index(1), Ok(1));
}

#[test]
fn user_basis_refusals() {
    assert_eq!(
        UserBasis::<u128, Gaussian, RuleTable<u128, Gaussian>>::new(1, vec![], flips()).err(),
        Some(QmbedError::InvalidSector(Reason::Text("UserBasis requires at least one accepted state")))
    );
    assert_eq!(
        UserBasis::<u128, Gaussian, RuleTable<u128, Gaussian>>::new(1, vec![1, 1], flips()).err(),
        Some(QmbedError::InvalidSector(Reason::Text("UserBasis states must be unique")))
    );
}

#[test]
fn user_filters_pick_states() {
    let builder = UserBasis::<_, Gaussian, _>::builder(3, flips());
    let basis = builder
        .state_filter(|state: u128| state.count_ones() == 2)
        .unwrap()
        .build::<Gaussian>()
        .unwrap();
    assert_eq!(basis.len(), 3);
    assert_eq!(basis.state(0), Ok(0b011));
    assert_eq!(filter_limit(3), Ok(8));
    assert_eq!(
        filter_limit(128),
        Err(QmbedError::UnsupportedBackend(Reason::Text("u128 UserBasis filters support at most 127 sites")))
    );
    let chunks = filter_chunks(10, 3);
    assert_eq!(chunks.first().unwrap().0, 0);
    assert_eq!(chunks.last().unwrap().1, 10);
    for pair in chunks.windows(2) {
        assert_eq!(pair[0].1, pair[1].0);
    }
}

#[test]
fn tensor_factors_keep_their_origin() {
    let product = TensorBasis::new(
        SpinBasis1D::builder(4).up(2).momentum(0).build().unwrap(),
        SpinBasis1D::builder(1).build().unwrap(),
    )
    .unwrap();
    let state = product.state(0).unwrap();
    let moved = product.apply_local_transitions(state, "+-|z", &[2, 1, 0]).unwrap();
    let reductions = moved[0].1.iter().filter(|factor| matches!(factor, Factor::Reduced(_))).count();
    assert_eq!(reductions, 1);
}

#[test]
fn packed_bases_reduce_physical_states() {
    let chain = pack(SpinBasis1D::builder(2).up(1).momentum(0).build().unwrap());
    let image = chain.reduction_image(0b10).unwrap().unwrap();
    assert_eq!(*image.representative(), 0b01);
    assert_eq!(image.orbit_size(), 2);
    assert_eq!(chain.transition_orbit_size(0b01), Ok(2));
    assert!(chain.reduction_image(0b11).unwrap().is_none());
    let raw = chain.apply_local_unreduced_transitions(0b01, "+-", &[1, 0]).unwrap();
    assert_eq!(raw.len(), 1);
    assert_eq!(raw[0].0, 0b10);
    let kept = chain.apply_local_transitions(0b01, "+-", &[1, 0]).unwrap();
    assert_eq!(kept[0].0, 0b01);
    let reversed =
        pack(SpinBasis1D::builder(2).up(1).build().unwrap()).reversed();
    assert_eq!(*reversed.reduction_image(0b10).unwrap().unwrap().representative(), 0b10);
}

#[test]
fn packed_photons_reduce_through_their_matter() {
    let matter = pack(SpinBasis1D::builder(1).build().unwrap());
    let product = pack(PackedPhotonBasis::new(matter, 2, Some(1)).unwrap());
    assert_eq!(product.len(), 2);
    let image = product.reduction_image(1).unwrap().unwrap();
    assert_eq!(*image.representative(), 1);
    assert_eq!(image.orbit_size(), 1);
    assert!(product.reduction_image(4).unwrap().is_none());
    let raw = product.apply_local_unreduced_transitions(1, "|+", &[0]).unwrap();
    assert_eq!(raw.len(), 1);
    assert_eq!(raw[0].0, 2);
    assert_eq!(product.apply_local_transitions(1, "|+", &[0]).unwrap().len(), 0);
    let exchanged = product.apply_local_unreduced_transitions(1, "+|-", &[0, 0]).unwrap();
    assert_eq!(exchanged[0].0, 3);
}

#[test]
fn packed_photon_states_are_rows_of_the_product() {
    let matter = || pack(SpinBasis1D::builder(2).up(1).build().unwrap());
    let whole = PackedPhotonBasis::new(matter(), 1, None).unwrap();
    assert_eq!(whole.photon_dimension(), 2);
    assert_eq!(whole.full_dimension(), 4);
    let whole = pack(whole);
    assert_eq!(whole.len(), 4);
    for row in 0..4u128 {
        assert_eq!(whole.state(row as usize), Ok(row));
        assert_eq!(whole.index(row), Ok(row as usize));
        assert_eq!(whole.additive_quantum_number(row), Ok(1 + row as usize % 2));
    }
    assert_eq!(whole.additive_quantum_number(4), Err(QmbedError::StateNotInBasis));
    let filtered = pack(PackedPhotonBasis::new(matter(), 1, Some(2)).unwrap());
    assert_eq!(filtered.len(), 2);
    assert_eq!(filtered.state(0), Ok(1));
    assert_eq!(filtered.state(1), Ok(3));
    let hop = whole.apply_local_transitions(0, "+-|+", &[1, 0, 0]).unwrap();
    assert_eq!(hop.len(), 1);
    assert_eq!(hop[0].0, 3);
    let outside = whole.apply_local_unreduced_transitions(0, "+|", &[1]).unwrap();
    assert_eq!(outside.len(), 0);
}

#[test]
fn products_stand_for_themselves() {
    let product = TensorBasis::new(
        SpinBasis1D::builder(1).build().unwrap(),
        SpinBasis1D::builder(1).build().unwrap(),
    )
    .unwrap();
    let state = Pair { left: 1, right: 0 };
    let image = product.reduction_image(state).unwrap().unwrap();
    assert_eq!(*image.representative(), state);
    assert_eq!(image.orbit_size(), 1);
    assert!(product.reduction_image(Pair { left: 2, right: 0 }).unwrap().is_none());
}

#[test]
fn callback_bases_can_be_packed() {
    let unit = Turn { steps: 0, circle: 1 };
    let swap = ImageTable { images: vec![(0u128, 0u128, unit), (1, 2, unit), (2, 1, unit)] };
    let rules = RuleTable {
        names: vec!['u'],
        rules: vec![
            LocalRule { name: 'u', state: 0u128, site: 0, target: 2, amplitude: g(2, 3) },
            LocalRule { name: 'u', state: 0, site: 1, target: 0, amplitude: g(-1, 0) },
        ],
    };
    let parent = CallbackBasis::new(UserBasis::new(2, vec![0u128, 1, 2], rules).unwrap());
    let reducer = SymmetryReducer::new().with_map(ClosureSymmetryMap::new(2, swap).unwrap(), 0);
    let basis = pack(GeneralBasis::new(parent, reducer).unwrap());
    assert_eq!(basis.len(), 2);
    assert_eq!(basis.state(0), Ok(0));
    assert_eq!(basis.state(1), Ok(1));
    let image = basis.reduction_image(2).unwrap().unwrap();
    assert_eq!(*image.representative(), 1);
    assert_eq!(image.orbit_size(), 2);
    let (target, factors) = basis.apply_local(0, "u", &[0]).unwrap().unwrap();
    assert_eq!(target, 1);
    assert_eq!(factors[0], Factor::Whole(g(2, 3)));
    assert_eq!(factors.len(), 2);
    let (target, factors) = basis.apply_local(0, "u", &[1]).unwrap().unwrap();
    assert_eq!(target, 0);
    assert_eq!(factors[0], Factor::Whole(g(-1, 0)));
    assert_eq!(
        basis.additive_quantum_number(2),
        Err(QmbedError::UnsupportedBackend(Reason::Text(
            "a callback-defined basis must provide an additive quantum-number callback"
        )))
    );
    assert_eq!(basis.additive_quantum_number(3), Err(QmbedError::StateNotInBasis));
    assert_eq!(basis.operator_preserves_particle_sector("u"), Ok(true));
}

#[test]
fn packed_sectors_take_any_map() {
    let unit = Turn { steps: 0, circle: 1 };
    let half = Turn { steps: 1, circle: 2 };
    let swap = || {
        ImageTable { images: vec![(0u128, 0u128, unit), (1, 2, unit), (2, 1, unit), (3, 3, half)] }
    };
    let parent = SpinBasis1D::builder(2).build().unwrap();
    let reducer = SymmetryReducer::new().with_map(ClosureSymmetryMap::new(2, swap()).unwrap(), 0);
    let basis: PackedBasis<RuleTable<u128, Gaussian>, ClosureSymmetryMap<ImageTable<u128, Turn>>> =
        PackedBasis::from(GeneralBasis::new(parent, reducer).unwrap());
    // the last state changes sign, so that only the odd sector keeps it
    assert_eq!(basis.len(), 2);
    assert_eq!(basis.state(0), Ok(0));
    assert_eq!(basis.state(1), Ok(1));
    assert_eq!(basis.additive_quantum_number(3), Ok(2));
    assert!(basis.reduction_image(3).unwrap().is_none());
}

#[test]
fn seeds_may_leave_the_parent() {
    let unit = Turn { steps: 0, circle: 1 };
    let swap = || ImageTable { images: vec![(0u128, 0u128, unit), (1, 2, unit), (2, 1, unit)] };
    let reducer =
        || SymmetryReducer::new().with_map(ClosureSymmetryMap::new(2, swap()).unwrap(), 0);
    let parent = || CallbackBasis::new(UserBasis::new(1, vec![0u128, 1], flips()).unwrap());
    assert!(GeneralBasis::new(parent(), reducer()).is_err());
    let basis = GeneralBasis::from_orbit_seeds(parent(), reducer()).unwrap();
    assert_eq!(basis.len(), 2);
    assert_eq!(basis.state(1), Ok(1));
    let image = basis.reduction_image(2).unwrap().unwrap();
    assert_eq!(*image.representative(), 1);
    assert_eq!(image.orbit_size(), 2);
}

#[test]
fn user_algebra_on_other_states() {
    let basis = UserBasis::new(1, vec![0u128, 1], flips()).unwrap();
    let other = basis.with_states(vec![1]).unwrap();
    assert_eq!(other.len(), 1);
    assert_eq!(other.index(1), Ok(0));
    assert_eq!(other.apply_local(1, "x", &[0]), Ok(Some((0, g(1, 0)))));
    assert_eq!(
        basis.with_states(vec![1, 1]).err(),
        Some(QmbedError::InvalidSector(Reason::Text("UserBasis states must be unique")))
    );
}

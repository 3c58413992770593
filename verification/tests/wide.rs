use num_bigint::BigUint;
use qmbed::arrays::{array_to_ints, array_to_states, ints_to_array, states_to_array};
use qmbed::basis::Basis;
use qmbed::bigint::{state_from_biguint, state_to_biguint};
use qmbed::erased::{ErasedState, U1024, U256};
use qmbed::error::{QmbedError, Reason};
use qmbed::spin::SpinNormalization;
use qmbed::wide::{
    basis_int_to_python_int, basis_ones, basis_zeros, bitwise_and, bitwise_leftshift,
    bitwise_not, bitwise_or, bitwise_rightshift, bitwise_xor, get_basis_type,
    python_int_to_basis_int, StateStorage, WideState,
};
use qmbed::wide_packed::{restore_fixed_width_state, WidePackedBasis};
use qmbed::wide_spin::{WideSpinBasis256, WideSpinBasis1024};

#[test]
fn storage_grows_with_the_bits() {
    assert_eq!(StateStorage::for_bits(128), Ok(StateStorage::U128));
    assert_eq!(StateStorage::for_bits(129), Ok(StateStorage::U256));
    assert_eq!(StateStorage::for_bits(257), Ok(StateStorage::U1024));
    assert_eq!(StateStorage::for_bits(5000), Ok(StateStorage::U16384));
    assert_eq!(
        StateStorage::for_bits(0),
        Err(QmbedError::InvalidSector(Reason::Text("a basis state needs at least one bit")))
    );
    assert_eq!(
        StateStorage::for_bits(16385),
        Err(QmbedError::UnsupportedBackend(Reason::Text("basis state requires more than 16384 bits")))
    );
    assert_eq!(get_basis_type(100, None, 3), Ok(StateStorage::U256));
    assert_eq!(
        get_basis_type(10, None, 1),
        Err(QmbedError::InvalidSector(Reason::Text("states_per_site must be at least two")))
    );
}

#[test]
fn wide_bits_are_set_and_counted() {
    let state = U256::zero().with_bit(200, true).unwrap().with_bit(3, true).unwrap();
    assert_eq!(state.bit(200), Ok(true));
    assert_eq!(state.bit(199), Ok(false));
    assert_eq!(state.count_ones(), 2);
    assert_eq!(state.count_ones_after(3), 1);
    assert!(state.has_bits_at_or_above(200));
    assert!(!state.has_bits_at_or_above(201));
    assert_eq!(state.bit(256), Err(QmbedError::InvalidSite { site: 256, sites: 256 }));
    assert_eq!(state.with_bit(256, true), Err(QmbedError::InvalidSite { site: 256, sites: 256 }));
    assert_eq!(state.with_bit(200, false).unwrap().count_ones(), 1);
}

#[test]
fn wide_logic_and_shifts() {
    let one = python_int_to_basis_int::<4>(1);
    let three = python_int_to_basis_int::<4>(3);
    assert_eq!(basis_int_to_python_int(bitwise_and(one, three)), Ok(1));
    assert_eq!(basis_int_to_python_int(bitwise_or(one, three)), Ok(3));
    assert_eq!(basis_int_to_python_int(bitwise_xor(one, three)), Ok(2));
    assert_eq!(bitwise_not(bitwise_not(three)), three);
    let far = bitwise_leftshift(three, 190);
    assert_eq!(far.bit(191), Ok(true));
    assert_eq!(bitwise_rightshift(far, 190), three);
    assert_eq!(
        basis_int_to_python_int(far),
        Err(QmbedError::UnsupportedBackend(
            Reason::Text("wide basis integer does not fit into a Python-compatible u128")
        ))
    );
    assert_eq!(basis_zeros::<4>(2), vec![U256::zero(); 2]);
    assert_eq!(basis_ones::<4>(1), vec![bitwise_not(U256::zero())]);
    assert_eq!(basis_ones::<4>(1)[0].count_ones(), 256);
}

#[test]
fn packed_integers_round_trip() {
    for value in [0u128, 1, 77, u128::MAX] {
        assert_eq!(basis_int_to_python_int(python_int_to_basis_int::<16>(value)), Ok(value));
    }
}

#[test]
fn large_integers_round_trip() {
    let state = U1024::zero().with_bit(900, true).unwrap().with_bit(64, true).unwrap();
    let integer = state_to_biguint(state);
    assert_eq!(integer.bits(), 901);
    assert_eq!(state_from_biguint::<16>(&integer), Ok(state));
    assert_eq!(
        state_from_biguint::<4>(&integer),
        Err(QmbedError::UnsupportedBackend(Reason::StateTooNarrow { bits: 901, width: 256 }))
    );
    assert_eq!(state_from_biguint::<4>(&BigUint::from(5u32)), Ok(WideState::from_words([5, 0, 0, 0])));
}

#[test]
fn erased_states_keep_their_decimal() {
    let text = "1267650600228229401496703205376";
    let state = ErasedState::from_decimal(200, text).unwrap();
    assert_eq!(state.to_decimal(), text);
    assert_eq!(state.width_bits(), 200);
    assert_eq!(state.storage(), StateStorage::U256);
    assert_eq!(state.to_biguint(), BigUint::from(1u32) << 100usize);
    assert_eq!(ErasedState::from_biguint(200, &(BigUint::from(1u32) << 100usize)).unwrap().to_decimal(), text);
    assert_eq!(
        ErasedState::from_decimal(200, "12x").err(),
        Some(QmbedError::InvalidOptions(Reason::Text("the basis state is not a nonnegative decimal integer")))
    );
    assert_eq!(
        ErasedState::from_decimal(10, "1024").err(),
        Some(QmbedError::UnsupportedBackend(Reason::IntegerTooWide { bits: 11, width: 10 }))
    );
    assert_eq!(
        ErasedState::from_decimal(0, "0").err(),
        Some(QmbedError::InvalidSector(Reason::Text("a basis state needs at least one bit")))
    );
}

#[test]
fn erased_logic_needs_equal_widths() {
    let six = ErasedState::from_decimal(4, "6").unwrap();
    let three = ErasedState::from_decimal(4, "3").unwrap();
    let wide = ErasedState::from_decimal(5, "3").unwrap();
    assert_eq!(six.bitwise_and(&three).unwrap().to_decimal(), "2");
    assert_eq!(six.bitwise_or(&three).unwrap().to_decimal(), "7");
    assert_eq!(six.bitwise_xor(&three).unwrap().to_decimal(), "5");
    assert_eq!(six.bitwise_not().unwrap().to_decimal(), "9");
    assert_eq!(six.right_shift(1).to_decimal(), "3");
    assert_eq!(three.left_shift(2).unwrap().to_decimal(), "12");
    assert_eq!(six.left_shift(2).unwrap().to_decimal(), "8");
    assert_eq!(
        six.bitwise_and(&wide).err(),
        Some(QmbedError::DimensionMismatch(
            Reason::Text("bitwise basis states must have the same logical width")
        ))
    );
}

#[test]
fn wide_spin_sector_of_two_hundred_sites() {
    let basis = WideSpinBasis256::new(200, Some(1), false).unwrap();
    assert_eq!(basis.len(), 200);
    let last = basis.state(199).unwrap();
    assert_eq!(last.bit(199), Ok(true));
    assert_eq!(basis.index(last), Ok(199));
    let (target, factors) = basis.apply_local(last, "+-", &[3, 199]).unwrap().unwrap();
    assert_eq!(target.bit(3), Ok(true));
    assert_eq!(target.count_ones(), 1);
    assert_eq!(factors.len(), 2);
    assert_eq!(basis.normalization(), SpinNormalization::AngularMomentum);
}

#[test]
fn wide_pauli_operators_are_twice_the_spin_operators() {
    let pauli = WideSpinBasis256::with_normalization(1, None, SpinNormalization::Pauli).unwrap();
    let one = U256::from_words([1, 0, 0, 0]);
    let (target, factors) = pauli.apply_local(U256::zero(), "x", &[0]).unwrap().unwrap();
    assert_eq!(target, one);
    assert_eq!((factors[0].numerator, factors[0].halved), (1, false));
    let (_, factors) = pauli.apply_local(one, "y", &[0]).unwrap().unwrap();
    assert_eq!((factors[0].numerator, factors[0].halved, factors[0].imaginary), (1, false, true));
    let plain =
        WideSpinBasis256::with_normalization(1, None, SpinNormalization::AngularMomentum).unwrap();
    let (_, factors) = plain.apply_local(U256::zero(), "x", &[0]).unwrap().unwrap();
    assert_eq!((factors[0].numerator, factors[0].halved), (1, true));
}

#[test]
fn wide_spin_refusals() {
    assert_eq!(
        WideSpinBasis256::new(257, Some(1), false).err(),
        Some(QmbedError::UnsupportedBackend(Reason::SitesOutOfRange { most: 256 }))
    );
    assert_eq!(
        WideSpinBasis256::new(30, None, false).err(),
        Some(QmbedError::InvalidOptions(
            Reason::Text("an unrestricted wide spin basis above 24 sites is not enumerable; select a particle sector")
        ))
    );
    assert_eq!(
        WideSpinBasis256::new(30, Some(31), false).err(),
        Some(QmbedError::InvalidSector(Reason::Text("particle count exceeds the wide spin site count")))
    );
    assert_eq!(
        WideSpinBasis256::from_particle_sectors(30, vec![], false).err(),
        Some(QmbedError::InvalidSector(Reason::Text("wide spin sector union must be nonempty")))
    );
}

#[test]
fn packed_wide_basis_erases_its_states() {
    let basis = WidePackedBasis::from(WideSpinBasis1024::new(300, Some(1), true).unwrap());
    assert_eq!(basis.width_bits(), 300);
    assert_eq!(basis.len(), 300);
    let first = basis.state(0).unwrap();
    assert_eq!(first.to_decimal(), "1");
    let fixed: U1024 = restore_fixed_width_state(first, 300).unwrap();
    assert_eq!(fixed.bit(0), Ok(true));
    let turned = basis.reversed();
    assert_eq!(turned.index(first), Ok(299));
    let back = turned.reversed();
    assert_eq!(back.index(first), Ok(0));
}

#[test]
fn digit_rows_round_trip() {
    let states = vec![0u128, 5, 26];
    let rows = states_to_array(&states, 3, 3).unwrap();
    assert_eq!(array_to_states(&rows, 3), Ok(states));
    assert_eq!(rows[2], vec![2, 2, 2]);
    assert_eq!(
        states_to_array(&[27], 3, 3),
        Err(QmbedError::StateNotInBasis)
    );
    assert_eq!(
        states_to_array(&[0], 3, 1),
        Err(QmbedError::InvalidSector(Reason::Text("local dimension must be at least two")))
    );
    assert_eq!(
        array_to_states(&[vec![3]], 3),
        Err(QmbedError::InvalidSector(
            Reason::Text("occupation arrays must have equal length and valid digits")
        ))
    );
}

#[test]
fn bit_rows_round_trip() {
    let states = vec![1u128, 6];
    let rows = ints_to_array(&states, 3).unwrap();
    assert_eq!(array_to_ints(&rows), Ok(states));
    assert_eq!(
        ints_to_array(&[1], 129),
        Err(QmbedError::UnsupportedBackend(
            Reason::Text("u128 binary conversion supports at most 128 sites")
        ))
    );
    assert_eq!(
        array_to_ints(&[vec![2]]),
        Err(QmbedError::InvalidSector(
            Reason::Text("binary state rows must have equal lengths and contain only zero or one")
        ))
    );
}

use qmbed::amplitudes::LocalFactor;
use qmbed::boson::BosonBasis1D;
use qmbed::error::{QmbedError, Reason};
use qmbed::fermion::{apply_fermion, apply_fermion_symbols, SpinlessFermionBasis1D};
use qmbed::linear::Gaussian;
use qmbed::merging::{merge, merged_transitions};
use qmbed::spin::SpinBasis1D;
use qmbed::user::{filter_chunks, filter_range};

fn g(re: i64) -> Gaussian {
    Gaussian { re, im: 0 }
}

fn sign(factors: &[LocalFactor]) -> i128 {
    factors.iter().map(|factor| factor.numerator).product()
}

#[test]
fn fermions_anticommute_on_different_orbitals() {
    for state in 0..16u128 {
        for (a, b) in [('+', '+'), ('+', '-'), ('-', '+'), ('-', '-')] {
            for (first, second) in [(0, 2), (3, 1), (1, 2)] {
                let one = apply_fermion_symbols(4, state, &[a, b], &[first, second]).unwrap();
                let other = apply_fermion_symbols(4, state, &[b, a], &[second, first]).unwrap();
                match (one, other) {
                    (Some((left, forward)), Some((right, backward))) => {
                        assert_eq!(left, right);
                        assert_eq!(sign(&forward), -sign(&backward));
                    }
                    (None, None) => {}
                    _ => panic!("one order acts and the other does not"),
                }
            }
        }
    }
    let (target, factors) = apply_fermion_symbols(3, 0b010, &['+'], &[2]).unwrap().unwrap();
    assert_eq!(target, 0b110);
    assert_eq!(sign(&factors), -1);
}

#[test]
fn fermions_fill_an_orbital_once() {
    assert_eq!(apply_fermion_symbols(2, 0b01, &['+', '-'], &[0, 0]).unwrap().unwrap().0, 0b01);
    assert_eq!(apply_fermion_symbols(2, 0b01, &['-', '+'], &[0, 0]), Ok(None));
    assert_eq!(apply_fermion_symbols(2, 0b10, &['+', '+'], &[0, 0]), Ok(None));
    let (back, factors) = apply_fermion_symbols(2, 0b10, &['-', '+'], &[0, 0]).unwrap().unwrap();
    assert_eq!(back, 0b10);
    assert_eq!(sign(&factors), 1);
    assert_eq!(apply_fermion(0b01, 0, 'n'), Ok(Some((0b01, LocalFactor::integer(1)))));
}

#[test]
fn bosons_count_and_commute() {
    let basis = BosonBasis1D::builder(2, 4).build().unwrap();
    let state: u128 = 2 + 4;
    let root = |radicand: u128| LocalFactor {
        numerator: 1,
        halved: false,
        imaginary: false,
        radicand,
    };
    assert_eq!(
        basis.apply_local_symbols(state, &['+', '-'], &[0, 0]),
        Ok(Some((state, vec![root(2), root(2)])))
    );
    assert_eq!(
        basis.apply_local_symbols(state, &['-', '+'], &[0, 0]),
        Ok(Some((state, vec![root(3), root(3)])))
    );
    assert_eq!(basis.apply_local_symbols(3, &['-', '+'], &[0, 0]), Ok(None));
    let (left, factors) =
        basis.apply_local_symbols(state, &['+', '-'], &[0, 1]).unwrap().unwrap();
    let (right, others) =
        basis.apply_local_symbols(state, &['-', '+'], &[1, 0]).unwrap().unwrap();
    assert_eq!(left, right);
    assert_eq!(left, 3);
    assert_eq!(factors, vec![root(1), root(3)]);
    assert_eq!(others, vec![root(3), root(1)]);
}

#[test]
fn spin_ladders_close() {
    let basis = SpinBasis1D::builder(1).spin_twice(3).build().unwrap();
    for level in 0..=3i128 {
        let state = level as u128;
        let square = |operator: &str| -> i128 {
            let branches = basis.unreduced_local_transitions(state, operator, &[0, 0]).unwrap();
            match branches.get(0) {
                Some((target, factors)) => {
                    assert_eq!(target, state);
                    assert_eq!(factors[0], factors[1]);
                    factors[0].radicand as i128
                }
                None => 0,
            }
        };
        assert_eq!(square("+-") - square("-+"), 2 * level - 3);
    }
}

#[test]
fn shared_ranges_keep_the_same_states() {
    let keep = |state: u128| state % 3 == 1;
    let whole = filter_range(&keep, 0, 32);
    for workers in 1..6 {
        let mut joined = Vec::new();
        for (start, end) in filter_chunks(32, workers) {
            joined.extend(filter_range(&keep, start, end));
        }
        assert_eq!(joined, whole);
    }
    assert_eq!(whole[0], 1);
    assert_eq!(whole.len(), 11);
}

#[test]
fn equal_destinations_are_added_up() {
    let list = vec![(3u128, g(1)), (1, g(2)), (3, g(4)), (2, g(1)), (2, g(-1))];
    assert_eq!(merge(&list), vec![(1, g(2)), (3, g(5))]);
    let sector = SpinBasis1D::builder(2).up(1).momentum(0).build().unwrap();
    assert_eq!(
        merged_transitions::<SpinBasis1D, Gaussian>(&sector, 0b01, "+-", &[1, 0]),
        Ok(vec![(0b01, g(1))])
    );
    assert_eq!(sector.apply_local::<Gaussian>(0b01, "+-", &[1, 0]), Ok(Some((0b01, g(1)))));
    assert_eq!(sector.apply_local::<Gaussian>(0b01, "++", &[0, 1]), Ok(None));
}

#[test]
fn branching_actions_have_no_only_destination() {
    let one = SpinBasis1D::builder(1).spin_twice(2).build().unwrap();
    assert_eq!(
        one.apply_local::<Gaussian>(1, "x", &[0]).err(),
        Some(QmbedError::UnsupportedBackend(
            Reason::Text("the scalars do not hold an amplitude exactly")
        ))
    );
    assert_eq!(one.apply_local::<Gaussian>(1, "z", &[0]), Ok(None));
    let half = SpinBasis1D::builder(2).build().unwrap();
    assert_eq!(half.apply_local::<Gaussian>(0b01, "+-", &[1, 0]), Ok(Some((0b10, g(1)))));
    let fermions = SpinlessFermionBasis1D::builder(3).build().unwrap();
    assert_eq!(fermions.apply_local::<Gaussian>(0b010, "+", &[2]), Ok(Some((0b110, g(-1)))));
    assert_eq!(fermions.apply_local::<Gaussian>(0b010, "+", &[1]), Ok(None));
}

use qmbed::combinatorics::binomial;
use qmbed::digits::fixed_digit_sum_states;
use qmbed::error::{QmbedError, Reason};
use qmbed::weights::{fixed_weight_state_index, fixed_weight_states};

#[test]
fn weight_sector_of_four_sites() {
    let states = fixed_weight_states(4, Some(2)).unwrap();
    assert_eq!(states, vec![0b0011, 0b0101, 0b0110, 0b1001, 0b1010, 0b1100]);
    for (index, state) in states.iter().enumerate() {
        assert_eq!(fixed_weight_state_index(*state, 4, 2), Ok(index));
    }
}

#[test]
fn weight_sector_refusals() {
    assert_eq!(
        fixed_weight_states(4, Some(5)),
        Err(QmbedError::InvalidSector(Reason::Text("particle count exceeds site count")))
    );
}

#[test]
fn binomial_values() {
    assert_eq!(binomial(10, 3), 120);
    assert_eq!(binomial(3, 10), 1);
    assert_eq!(binomial(128, 64), usize::MAX);
    assert_eq!(binomial(5_000_000_000, 2), 12_499_999_997_500_000_000);
}

#[test]
fn digit_sums_of_three_trits() {
    let states = fixed_digit_sum_states(3, 3, Some(2)).unwrap();
    assert_eq!(states, vec![2, 4, 6, 10, 12, 18]);
}

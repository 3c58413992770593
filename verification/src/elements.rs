//! Matrix elements of assembled operators.

use vstd::prelude::*;

use crate::additivity;
use crate::amplitudes::{ReductionFactor, Turn};
use crate::assembly;
use crate::assembly::Weighing;
use crate::basis::{Basis, Factor};
use crate::checks::AssemblyChecks;
use crate::exact::ExactScalar;
use crate::exact_numbers;
use crate::linear;
use crate::linear::{Gaussian, MatrixFormat, Scalar};
use crate::matrix_subspace::PhaseScalar;
use crate::model::{CouplingModel, TermModel};
use crate::sums;
use crate::sums::total_of;

verus! {

/// Product of the first factors of an amplitude.
pub open spec fn product_of<Phase, S: Weighing<Phase>>(
    factors: Seq<Factor<Phase>>,
    count: nat,
) -> S
    decreases count,
{
    if count == 0 {
        S::spec_one()
    } else {
        product_of::<Phase, S>(factors, (count - 1) as nat).spec_times(
            S::spec_factor(factors[count - 1]),
        )
    }
}

/// The amplitude with which some transitions lead to a state: the sum over the entries for it.
pub open spec fn amplitude_to<State, Phase, S: Weighing<Phase>>(
    transitions: Seq<(State, Seq<Factor<Phase>>)>,
    target: State,
) -> S {
    total_of(
        |branch: int|
            if transitions[branch].0 == target {
                product_of::<Phase, S>(transitions[branch].1, transitions[branch].1.len())
            } else {
                S::spec_zero()
            },
        transitions.len(),
    )
}

/// The amplitude of the couplings of a term between two states of a basis.
pub open spec fn element_of<B: Basis, S: Weighing<B::Phase>>(
    basis: B,
    operator: Seq<char>,
    couplings: Seq<CouplingModel<S>>,
    from: B::State,
    to: B::State,
) -> S {
    total_of(
        |k: int|
            couplings[k].coefficient.spec_times(
                amplitude_to::<B::State, B::Phase, S>(
                    basis.spec_transitions(from, operator, couplings[k].sites)->Ok_0,
                    to,
                ),
            ),
        couplings.len(),
    )
}

proof fn lemma_weighed<Phase, S: Weighing<Phase> + ExactScalar>(
    coefficient: S,
    factors: Seq<Factor<Phase>>,
    count: nat,
)
    ensures
        assembly::weighed(coefficient, factors, count) == coefficient.spec_times(
            product_of::<Phase, S>(factors, count),
        ),
    decreases count,
{
    if count == 0 {
        S::times_commutes(coefficient, S::spec_one());
        S::one_is_neutral(coefficient);
    } else {
        lemma_weighed(coefficient, factors, (count - 1) as nat);
        S::times_associates(
            coefficient,
            product_of::<Phase, S>(factors, (count - 1) as nat),
            S::spec_factor(factors[count - 1]),
        );
    }
}

/// Entries of one column show in that column alone.
proof fn lemma_other_column<S: ExactScalar>(
    entries: Seq<(usize, usize, S)>,
    column: nat,
    rows: usize,
    columns: usize,
)
    requires
        linear::entries_fit(entries, rows, columns),
        forall|i: int| 0 <= i < entries.len() ==> (#[trigger] entries[i]).1 != column,
    ensures
        linear::entries_apply(entries, linear::unit::<S>(columns as nat, column), rows as nat)
            == linear::zeros::<S>(rows as nat),
    decreases entries.len(),
{
    if entries.len() > 0 {
        let shorter = entries.drop_last();
        assert forall|i: int| 0 <= i < shorter.len() implies (#[trigger] shorter[i]).0 < rows
            && shorter[i].1 < columns && shorter[i].1 != column by {
            assert(entries[i].1 != column);
        }
        lemma_other_column(shorter, column, rows, columns);
        let (row, other, value) = entries.last();
        assert(entries[entries.len() - 1].1 != column);
        S::times_commutes(value, S::spec_zero());
        S::zero_is_neutral(value);
        S::zero_is_neutral(S::spec_zero());
        assert(linear::entries_apply(
            entries,
            linear::unit::<S>(columns as nat, column),
            rows as nat,
        ) =~= linear::zeros::<S>(rows as nat));
    }
}

spec fn branch_share<B: Basis, S: Weighing<B::Phase>>(
    transitions: Seq<(B::State, Seq<Factor<B::Phase>>)>,
    coefficient: S,
    target: B::State,
    branch: int,
) -> S {
    if transitions[branch].0 == target {
        assembly::weighed(coefficient, transitions[branch].1, transitions[branch].1.len())
    } else {
        S::spec_zero()
    }
}

proof fn lemma_transition_entries<B: Basis, S: Weighing<B::Phase> + ExactScalar>(
    basis: B,
    column: usize,
    transitions: Seq<(B::State, Seq<Factor<B::Phase>>)>,
    coefficient: S,
    row: int,
    length: usize,
    count: nat,
)
    requires
        basis.spec_states().len() == length,
        basis.spec_states().no_duplicates(),
        column < length,
        0 <= row < length,
    ensures
        ({
            let entries = assembly::transition_entries::<B, S>(
                basis,
                column,
                transitions,
                coefficient,
                count,
            );
            &&& linear::entries_fit(entries, length, length)
            &&& forall|i: int| 0 <= i < entries.len() ==> (#[trigger] entries[i]).1 == column
            &&& linear::entries_apply(
                entries,
                linear::unit::<S>(length as nat, column as nat),
                length as nat,
            )[row] == total_of(
                |b: int|
                    branch_share::<B, S>(transitions, coefficient, basis.spec_states()[row], b),
                count,
            )
        }),
    decreases count,
{
    let states = basis.spec_states();
    let input = linear::unit::<S>(length as nat, column as nat);
    if count > 0 {
        let fewer = (count - 1) as nat;
        lemma_transition_entries(basis, column, transitions, coefficient, row, length, fewer);
        let before = assembly::transition_entries::<B, S>(
            basis,
            column,
            transitions,
            coefficient,
            fewer,
        );
        let entries = assembly::transition_entries::<B, S>(
            basis,
            column,
            transitions,
            coefficient,
            count,
        );
        let (target, factors) = transitions[count - 1];
        let value = assembly::weighed(coefficient, factors, factors.len());
        linear::lemma_entries_apply(before, input, length, length);
        let image = linear::entries_apply(before, input, length as nat);
        if states.contains(target) {
            let place = states.index_of(target);
            assert(states[place] == target);
            assert(entries.drop_last() =~= before);
            assert(entries.last() == (place as usize, column, value));
            S::times_commutes(value, S::spec_one());
            S::one_is_neutral(value);
            if place != row {
                assert(states[row] != target);
                S::zero_is_neutral(image[row]);
            }
        } else {
            assert(states[row] != target) by {
                if states[row] == target {
                    assert(states.contains(states[row]));
                }
            }
            S::zero_is_neutral(image[row]);
        }
    }
}

proof fn lemma_coupling_entries<B: Basis, S: Weighing<B::Phase> + ExactScalar>(
    basis: B,
    operator: Seq<char>,
    couplings: Seq<CouplingModel<S>>,
    column: usize,
    row: int,
    length: usize,
    count: nat,
)
    requires
        basis.spec_states().len() == length,
        basis.spec_states().no_duplicates(),
        column < length,
        0 <= row < length,
        assembly::coupling_entries(basis, operator, couplings, column, count) is Ok,
    ensures
        ({
            let entries = assembly::coupling_entries(
                basis,
                operator,
                couplings,
                column,
                count,
            )->Ok_0;
            &&& linear::entries_fit(entries, length, length)
            &&& forall|i: int| 0 <= i < entries.len() ==> (#[trigger] entries[i]).1 == column
            &&& linear::entries_apply(
                entries,
                linear::unit::<S>(length as nat, column as nat),
                length as nat,
            )[row] == total_of(
                |k: int|
                    couplings[k].coefficient.spec_times(
                        amplitude_to::<B::State, B::Phase, S>(
                            basis.spec_transitions(
                                basis.spec_states()[column as int],
                                operator,
                                couplings[k].sites,
                            )->Ok_0,
                            basis.spec_states()[row],
                        ),
                    ),
                count,
            )
        }),
    decreases count,
{
    let states = basis.spec_states();
    let input = linear::unit::<S>(length as nat, column as nat);
    if count > 0 {
        let fewer = (count - 1) as nat;
        lemma_coupling_entries(basis, operator, couplings, column, row, length, fewer);
        let before = assembly::coupling_entries(basis, operator, couplings, column, fewer)->Ok_0;
        let coupling = couplings[count - 1];
        let list = basis.spec_transitions(
            states[column as int],
            operator,
            coupling.sites,
        )->Ok_0;
        let added = assembly::transition_entries::<B, S>(
            basis,
            column,
            list,
            coupling.coefficient,
            list.len(),
        );
        lemma_transition_entries(
            basis,
            column,
            list,
            coupling.coefficient,
            row,
            length,
            list.len(),
        );
        additivity::lemma_joined_apply(before, added, input, length, length);
        linear::lemma_entries_apply(before, input, length, length);
        let target = states[row];
        let plain = |b: int|
            if list[b].0 == target {
                product_of::<B::Phase, S>(list[b].1, list[b].1.len())
            } else {
                S::spec_zero()
            };
        let share = |b: int| branch_share::<B, S>(list, coupling.coefficient, target, b);
        let scaled = |b: int| coupling.coefficient.spec_times(plain(b));
        assert forall|b: int| 0 <= b < list.len() implies #[trigger] share(b) == scaled(b) by {
            lemma_weighed(coupling.coefficient, list[b].1, list[b].1.len());
            S::times_commutes(coupling.coefficient, S::spec_zero());
            S::zero_is_neutral(coupling.coefficient);
        }
        sums::lemma_alike(share, scaled, list.len());
        sums::lemma_factor(coupling.coefficient, plain, list.len());
        let both = before + added;
        assert forall|i: int| 0 <= i < both.len() implies (#[trigger] both[i]).0 < length
            && both[i].1 < length && both[i].1 == column by {
            if i < before.len() {
                assert(both[i] == before[i]);
            } else {
                assert(both[i] == added[i - before.len()]);
            }
        }
    }
}

proof fn lemma_columns<B: Basis, S: Weighing<B::Phase> + ExactScalar>(
    basis: B,
    operator: Seq<char>,
    couplings: Seq<CouplingModel<S>>,
    column: nat,
    row: int,
    length: usize,
    count: nat,
)
    requires
        basis.spec_states().len() == length,
        basis.spec_states().no_duplicates(),
        column < length,
        0 <= row < length,
        count <= length,
        assembly::column_entries(basis, seq![TermModel { operator, couplings }], count) is Ok,
    ensures
        linear::entries_fit(
            assembly::column_entries(basis, seq![TermModel { operator, couplings }], count)->Ok_0,
            length,
            length,
        ),
        linear::entries_apply(
            assembly::column_entries(basis, seq![TermModel { operator, couplings }], count)->Ok_0,
            linear::unit::<S>(length as nat, column),
            length as nat,
        )[row] == if column < count {
            element_of(
                basis,
                operator,
                couplings,
                basis.spec_states()[column as int],
                basis.spec_states()[row],
            )
        } else {
            S::spec_zero()
        },
    decreases count,
{
    let terms = seq![TermModel { operator, couplings }];
    let input = linear::unit::<S>(length as nat, column);
    if count > 0 {
        let fewer = (count - 1) as nat;
        lemma_columns(basis, operator, couplings, column, row, length, fewer);
        let before = assembly::column_entries(basis, terms, fewer)->Ok_0;
        let own = fewer as usize;
        reveal_with_fuel(assembly::term_entries, 2);
        let added = assembly::coupling_entries(
            basis,
            operator,
            couplings,
            own,
            couplings.len(),
        )->Ok_0;
        assert(Seq::<(usize, usize, S)>::empty() + added =~= added);
        lemma_coupling_entries(basis, operator, couplings, own, row, length, couplings.len());
        additivity::lemma_joined_apply(before, added, input, length, length);
        linear::lemma_entries_apply(before, input, length, length);
        let old = linear::entries_apply(before, input, length as nat)[row];
        let new = linear::entries_apply(added, input, length as nat)[row];
        if own == column {
            S::plus_commutes(S::spec_zero(), new);
            S::zero_is_neutral(new);
        } else {
            lemma_other_column(added, column, length, length);
            S::zero_is_neutral(old);
        }
        let both = before + added;
        assert forall|i: int| 0 <= i < both.len() implies (#[trigger] both[i]).0 < length
            && both[i].1 < length by {
            if i < before.len() {
                assert(both[i] == before[i]);
            } else {
                assert(both[i] == added[i - before.len()]);
            }
        }
    }
}

/// The columns of an assembled matrix are the images of the basis states: column `from`, row `to`
/// is the sum over the couplings of the term of the coefficient times the amplitude with which the
/// operator leads from state number `from` to state number `to`.
pub proof fn law_elements_are_amplitudes<B: Basis, S: Weighing<B::Phase> + ExactScalar>(
    basis: B,
    operator: Seq<char>,
    couplings: Seq<CouplingModel<S>>,
    checks: AssemblyChecks,
    format: MatrixFormat,
    from: nat,
    to: int,
)
    requires
        basis.wf(),
        basis.faithful(),
        basis.spec_states().len() <= usize::MAX,
        from < basis.spec_states().len(),
        0 <= to < basis.spec_states().len(),
        assembly::assembled(basis, seq![TermModel { operator, couplings }], checks, format) is Ok,
    ensures
        linear::entries_apply(
            assembly::assembled(
                basis,
                seq![TermModel { operator, couplings }],
                checks,
                format,
            )->Ok_0.entries,
            linear::unit::<S>(basis.spec_states().len(), from),
            basis.spec_states().len(),
        )[to] == element_of(
            basis,
            operator,
            couplings,
            basis.spec_states()[from as int],
            basis.spec_states()[to],
        ),
{
    basis.states_distinct();
    let length = basis.spec_states().len();
    lemma_columns(basis, operator, couplings, from, to, length as usize, length);
}

/// A reduction between orbits of one size undoes its phase: its value times the value of the phase
/// is one.
pub proof fn law_reductions_undo_their_phase(size: usize, phase: Turn)
    requires
        <Gaussian as PhaseScalar<Turn>>::spec_holds_phase(phase),
    ensures
        <Gaussian as Weighing<Turn>>::spec_factor(
            Factor::Reduced(ReductionFactor { source_orbit: size, target_orbit: size, phase }),
        ).spec_times(<Gaussian as PhaseScalar<Turn>>::spec_from_phase(phase)) == (Gaussian {
            re: 1,
            im: 0,
        }),
{
    let quarters = ((4 * phase.steps) / (phase.circle as int)) % 4;
    let value = <Gaussian as PhaseScalar<Turn>>::spec_from_phase(phase);
    assert(value == exact_numbers::quarter(quarters));
    exact_numbers::lemma_quarters_multiply(quarters, 0);
    exact_numbers::lemma_quarters_multiply((-quarters) % 4, quarters);
    assert(((-quarters) % 4 + quarters) % 4 == 0);
}

/// Turns multiply as their steps add up, and a quarter of the circle is minus the imaginary unit.
pub proof fn law_turns_add_up(first: Turn, second: Turn)
    requires
        first.circle == second.circle,
        first.steps + second.steps <= usize::MAX,
        <Gaussian as PhaseScalar<Turn>>::spec_holds_phase(first),
        <Gaussian as PhaseScalar<Turn>>::spec_holds_phase(second),
    ensures
        ({
            let both = Turn {
                steps: (first.steps + second.steps) as usize,
                circle: first.circle,
            };
            &&& <Gaussian as PhaseScalar<Turn>>::spec_holds_phase(both)
            &&& <Gaussian as PhaseScalar<Turn>>::spec_from_phase(both)
                == <Gaussian as PhaseScalar<Turn>>::spec_from_phase(first).spec_times(
                <Gaussian as PhaseScalar<Turn>>::spec_from_phase(second),
            )
        }),
        4 * first.steps == first.circle ==> <Gaussian as PhaseScalar<Turn>>::spec_from_phase(first)
            == (Gaussian { re: 0, im: (-1) as i64 }),
{
    let circle = first.circle as int;
    let a = (4 * first.steps) / circle;
    let b = (4 * second.steps) / circle;
    vstd::arithmetic::div_mod::lemma_fundamental_div_mod(4 * first.steps, circle);
    vstd::arithmetic::div_mod::lemma_fundamental_div_mod(4 * second.steps, circle);
    assert(circle * a + circle * b == (a + b) * circle) by (nonlinear_arith);
    vstd::arithmetic::div_mod::lemma_fundamental_div_mod_converse(
        4 * (first.steps + second.steps),
        circle,
        a + b,
        0,
    );
    exact_numbers::lemma_quarters_multiply(a % 4, b % 4);
    assert((a % 4 + b % 4) % 4 == (a + b) % 4);
    if 4 * first.steps == first.circle {
        vstd::arithmetic::div_mod::lemma_fundamental_div_mod_converse(
            4 * first.steps,
            circle,
            1,
            0,
        );
    }
}

/// The value of an exact local factor: twice the value is twice the numerator, or the numerator
/// where it is halved, and stands on the imaginary axis where the factor does.
pub proof fn law_local_factors_have_their_value(factor: crate::amplitudes::LocalFactor)
    requires
        factor.radicand == 1,
        <Gaussian as Weighing<Turn>>::spec_holds(Factor::Local(factor)),
    ensures
        ({
            let value = <Gaussian as Weighing<Turn>>::spec_factor(Factor::Local(factor));
            crate::spin_algebra::twice(factor) == (crate::spin_algebra::WholeComplex {
                re: 2 * value.re,
                im: 2 * value.im,
            })
        }),
{
}

} // verus!

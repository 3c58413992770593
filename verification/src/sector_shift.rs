//! Local operators between the sectors of two bases of one kind.

use vstd::prelude::*;

use crate::assembly;
use crate::assembly::{hold, weigh, Physical, Weighing};
use crate::basis;
use crate::basis::{Factor, Transitions};
use crate::crossing;
use crate::crossing::apply_between_subspaces_batch;
use crate::error::{QmbedError, Reason, Result};
use crate::linear;
use crate::linear::{MatrixFormat, Operator, OperatorModel};
use crate::matrix_subspace;
use crate::matrix_subspace::refuse_value;
use crate::model;
use crate::model::{Coupling, CouplingModel, EdModel, OperatorSpec, TermModel};
use crate::projector;
use crate::projector::BasisProjector;
use crate::reduction;
use crate::reduction::{index_transition, Reduction};

verus! {

/// Row and amplitude with which a basis takes up a physical destination, if it does.
pub open spec fn taken_up<B: Reduction, S: Weighing<B::Turned>>(
    target: B,
    state: B::State,
    source_orbit: usize,
) -> core::result::Result<Option<(usize, S)>, QmbedError> {
    match reduction::spec_reduce_transition(target, state, source_orbit) {
        Err(error) => Err(error),
        Ok(None) => Ok(None),
        Ok(Some((representative, factor))) => if !target.spec_states().contains(representative) {
            Err(QmbedError::StateNotInBasis)
        } else if !<S as Weighing<B::Turned>>::spec_holds(Factor::Reduced(factor)) {
            Err(matrix_subspace::no_value())
        } else {
            Ok(
                Some(
                    (
                        target.spec_states().index_of(representative) as usize,
                        <S as Weighing<B::Turned>>::spec_factor(Factor::Reduced(factor)),
                    ),
                ),
            )
        },
    }
}

/// Row and amplitude with which a basis takes up a physical destination, if it does.
pub fn take_up<B: Reduction, S: Weighing<B::Turned>>(
    target: &B,
    state: B::State,
    source_orbit: usize,
) -> (result: Result<Option<(usize, S)>>)
    requires
        target.wf(),
        target.faithful(),
    ensures
        result == taken_up::<B, S>(*target, state, source_orbit),
{
    match index_transition(target, state, source_orbit) {
        Err(error) => Err(error),
        Ok(None) => Ok(None),
        Ok(Some((row, factor))) => {
            proof {
                target.states_distinct();
                let representative = target.spec_states()[row as int];
                let found = target.spec_states().index_of(representative);
                assert(target.spec_states().contains(representative));
                assert(target.spec_states()[found] == representative);
                assert(found == row);
            }
            let factor: Factor<B::Turned> = Factor::Reduced(factor);
            if !<S as Weighing<B::Turned>>::holds(&factor) {
                return Err(refuse_value());
            }
            Ok(Some((row, <S as Weighing<B::Turned>>::factor(&factor))))
        },
    }
}

/// Matrix entries of the first destinations of a column.
pub open spec fn shift_entries<B: Physical + Reduction, S>(
    target: B,
    column: usize,
    orbit: usize,
    transitions: Seq<(B::State, Seq<Factor<B::Phase>>)>,
    coefficient: S,
    count: nat,
) -> core::result::Result<Seq<(usize, usize, S)>, QmbedError> where
    S: Weighing<B::Phase> + Weighing<B::Turned>,

    decreases count,
{
    if count == 0 {
        Ok(Seq::empty())
    } else {
        match shift_entries::<B, S>(
            target,
            column,
            orbit,
            transitions,
            coefficient,
            (count - 1) as nat,
        ) {
            Err(error) => Err(error),
            Ok(before) => {
                let (state, factors) = transitions[count - 1];
                match taken_up::<B, S>(target, state, orbit) {
                    Err(error) => Err(error),
                    Ok(None) => Ok(before),
                    Ok(Some((row, amplitude))) => Ok(
                        before.push(
                            (
                                row,
                                column,
                                assembly::weighed(
                                    coefficient,
                                    factors,
                                    factors.len(),
                                ).spec_times(amplitude),
                            ),
                        ),
                    ),
                }
            },
        }
    }
}

/// Matrix entries of the first couplings of a term in a column.
pub open spec fn shift_coupling_entries<B: Physical + Reduction, S>(
    source: B,
    target: B,
    operator: Seq<char>,
    couplings: Seq<CouplingModel<S>>,
    column: usize,
    orbit: usize,
    count: nat,
) -> core::result::Result<Seq<(usize, usize, S)>, QmbedError> where
    S: Weighing<B::Phase> + Weighing<B::Turned>,

    decreases count,
{
    if count == 0 {
        Ok(Seq::empty())
    } else {
        let coupling = couplings[count - 1];
        match shift_coupling_entries(
            source,
            target,
            operator,
            couplings,
            column,
            orbit,
            (count - 1) as nat,
        ) {
            Err(error) => Err(error),
            Ok(before) => match assembly::held::<B::State, B::Phase, S>(
                source.spec_unreduced(
                    source.spec_states()[column as int],
                    operator,
                    coupling.sites,
                ),
            ) {
                Err(error) => Err(error),
                Ok(transitions) => match shift_entries::<B, S>(
                    target,
                    column,
                    orbit,
                    transitions,
                    coupling.coefficient,
                    transitions.len(),
                ) {
                    Err(error) => Err(error),
                    Ok(added) => Ok(before + added),
                },
            },
        }
    }
}

/// Matrix entries of the first terms in a column.
pub open spec fn shift_term_entries<B: Physical + Reduction, S>(
    source: B,
    target: B,
    terms: Seq<TermModel<S>>,
    column: usize,
    orbit: usize,
    count: nat,
) -> core::result::Result<Seq<(usize, usize, S)>, QmbedError> where
    S: Weighing<B::Phase> + Weighing<B::Turned>,

    decreases count,
{
    if count == 0 {
        Ok(Seq::empty())
    } else {
        let term = terms[count - 1];
        match shift_term_entries(source, target, terms, column, orbit, (count - 1) as nat) {
            Err(error) => Err(error),
            Ok(before) => match shift_coupling_entries(
                source,
                target,
                term.operator,
                term.couplings,
                column,
                orbit,
                term.couplings.len(),
            ) {
                Err(error) => Err(error),
                Ok(added) => Ok(before + added),
            },
        }
    }
}

/// Matrix entries of the first columns.
pub open spec fn shift_column_entries<B: Physical + Reduction, S>(
    source: B,
    target: B,
    terms: Seq<TermModel<S>>,
    count: nat,
) -> core::result::Result<Seq<(usize, usize, S)>, QmbedError> where
    S: Weighing<B::Phase> + Weighing<B::Turned>,

    decreases count,
{
    if count == 0 {
        Ok(Seq::empty())
    } else {
        let column = (count - 1) as usize;
        match shift_column_entries(source, target, terms, (count - 1) as nat) {
            Err(error) => Err(error),
            Ok(before) => match source.spec_orbit_size(source.spec_states()[count - 1]) {
                Err(error) => Err(error),
                Ok(orbit) => match shift_term_entries(
                    source,
                    target,
                    terms,
                    column,
                    orbit,
                    terms.len(),
                ) {
                    Err(error) => Err(error),
                    Ok(added) => Ok(before + added),
                },
            },
        }
    }
}

/// The matrix of terms from the sector of one basis to that of another.
pub open spec fn shift_between<B: Physical + Reduction, S>(
    source: B,
    target: B,
    terms: Seq<TermModel<S>>,
) -> core::result::Result<OperatorModel<S>, QmbedError> where
    S: Weighing<B::Phase> + Weighing<B::Turned>,
 {
    match shift_column_entries(source, target, terms, source.spec_states().len()) {
        Ok(entries) => Ok(
            OperatorModel {
                rows: target.spec_states().len() as usize,
                columns: source.spec_states().len() as usize,
                entries,
                format: MatrixFormat::MatrixFree,
            },
        ),
        Err(error) => Err(error),
    }
}

proof fn lemma_shift_entries_fail<B: Physical + Reduction, S>(
    target: B,
    column: usize,
    orbit: usize,
    transitions: Seq<(B::State, Seq<Factor<B::Phase>>)>,
    coefficient: S,
    count: nat,
    later: nat,
) where S: Weighing<B::Phase> + Weighing<B::Turned>
    requires
        count <= later,
        shift_entries::<B, S>(target, column, orbit, transitions, coefficient, count) is Err,
    ensures
        shift_entries::<B, S>(target, column, orbit, transitions, coefficient, later)
            == shift_entries::<B, S>(target, column, orbit, transitions, coefficient, count),
    decreases later,
{
    if count < later {
        lemma_shift_entries_fail::<B, S>(
            target,
            column,
            orbit,
            transitions,
            coefficient,
            count,
            (later - 1) as nat,
        );
    }
}

proof fn lemma_shift_couplings_fail<B: Physical + Reduction, S>(
    source: B,
    target: B,
    operator: Seq<char>,
    couplings: Seq<CouplingModel<S>>,
    column: usize,
    orbit: usize,
    count: nat,
    later: nat,
) where S: Weighing<B::Phase> + Weighing<B::Turned>
    requires
        count <= later,
        shift_coupling_entries(source, target, operator, couplings, column, orbit, count) is Err,
    ensures
        shift_coupling_entries(source, target, operator, couplings, column, orbit, later)
            == shift_coupling_entries(
            source,
            target,
            operator,
            couplings,
            column,
            orbit,
            count,
        ),
    decreases later,
{
    if count < later {
        lemma_shift_couplings_fail(
            source,
            target,
            operator,
            couplings,
            column,
            orbit,
            count,
            (later - 1) as nat,
        );
    }
}

proof fn lemma_shift_terms_fail<B: Physical + Reduction, S>(
    source: B,
    target: B,
    terms: Seq<TermModel<S>>,
    column: usize,
    orbit: usize,
    count: nat,
    later: nat,
) where S: Weighing<B::Phase> + Weighing<B::Turned>
    requires
        count <= later,
        shift_term_entries(source, target, terms, column, orbit, count) is Err,
    ensures
        shift_term_entries(source, target, terms, column, orbit, later) == shift_term_entries(
            source,
            target,
            terms,
            column,
            orbit,
            count,
        ),
    decreases later,
{
    if count < later {
        lemma_shift_terms_fail(source, target, terms, column, orbit, count, (later - 1) as nat);
    }
}

proof fn lemma_shift_columns_fail<B: Physical + Reduction, S>(
    source: B,
    target: B,
    terms: Seq<TermModel<S>>,
    count: nat,
    later: nat,
) where S: Weighing<B::Phase> + Weighing<B::Turned>
    requires
        count <= later,
        shift_column_entries(source, target, terms, count) is Err,
    ensures
        shift_column_entries(source, target, terms, later) == shift_column_entries(
            source,
            target,
            terms,
            count,
        ),
    decreases later,
{
    if count < later {
        lemma_shift_columns_fail(source, target, terms, count, (later - 1) as nat);
    }
}

fn list_shift_entries<B: Physical + Reduction, S>(
    target: &B,
    column: usize,
    orbit: usize,
    transitions: &Transitions<B::State, B::Phase>,
    coefficient: S,
    list: &mut Vec<(usize, usize, S)>,
) -> (result: Result<()>) where S: Weighing<B::Phase> + Weighing<B::Turned>
    requires
        target.wf(),
        target.faithful(),
        linear::entries_fit(old(list)@, target.spec_states().len() as usize, (column + 1) as usize),
        column < usize::MAX,
        target.spec_states().len() <= usize::MAX,
    ensures
        match (
            result,
            shift_entries::<B, S>(
                *target,
                column,
                orbit,
                basis::transitions_view(transitions@),
                coefficient,
                transitions@.len(),
            ),
        ) {
            (Ok(_), Ok(added)) => {
                &&& final(list)@ == old(list)@ + added
                &&& linear::entries_fit(
                    final(list)@,
                    target.spec_states().len() as usize,
                    (column + 1) as usize,
                )
            },
            (Err(error), Err(stated)) => error == stated,
            _ => false,
        },
{
    let ghost start = list@;
    let ghost stated = basis::transitions_view(transitions@);
    let mut next: usize = 0;
    assert(list@ =~= start + Seq::empty());
    while next < transitions.len()
        invariant
            next <= transitions@.len(),
            target.wf(),
            target.faithful(),
            column < usize::MAX,
            target.spec_states().len() <= usize::MAX,
            stated == basis::transitions_view(transitions@),
            linear::entries_fit(list@, target.spec_states().len() as usize, (column + 1) as usize),
            shift_entries::<B, S>(*target, column, orbit, stated, coefficient, next as nat) is Ok,
            list@ == start + shift_entries::<B, S>(
                *target,
                column,
                orbit,
                stated,
                coefficient,
                next as nat,
            )->Ok_0,
        decreases transitions@.len() - next,
    {
        let state: B::State = transitions[next].0;
        assert(stated[next as int] == (state, transitions@[next as int].1@));
        match take_up::<B, S>(target, state, orbit) {
            Ok(Some((row, amplitude))) => {
                let value: S = weigh(coefficient, &transitions[next].1);
                let ghost before = list@;
                list.push((row, column, value.times(&amplitude)));
                proof {
                    let representative = target.spec_reduction(state)->Ok_0->Some_0.0;
                    let found = target.spec_states().index_of(representative);
                    assert(target.spec_states()[found] == representative);
                    assert forall|i: int| 0 <= i < list@.len() implies (#[trigger] list@[i]).0
                        < target.spec_states().len() as usize && list@[i].1 < (column
                        + 1) as usize by {
                        if i < before.len() {
                            assert(list@[i] == before[i]);
                        }
                    }
                }
            },
            Ok(None) => {},
            Err(error) => {
                proof {
                    lemma_shift_entries_fail::<B, S>(
                        *target,
                        column,
                        orbit,
                        stated,
                        coefficient,
                        (next + 1) as nat,
                        transitions@.len(),
                    );
                }
                return Err(error);
            },
        }
        next += 1;
        assert(list@ =~= start + shift_entries::<B, S>(
            *target,
            column,
            orbit,
            stated,
            coefficient,
            next as nat,
        )->Ok_0);
    }
    Ok(())
}

fn list_shift_couplings<B: Physical + Reduction, S>(
    source: &B,
    target: &B,
    term: &OperatorSpec<S>,
    state: B::State,
    column: usize,
    orbit: usize,
    list: &mut Vec<(usize, usize, S)>,
) -> (result: Result<()>) where S: Weighing<B::Phase> + Weighing<B::Turned>
    requires
        source.wf(),
        source.acts_on(state),
        column < source.spec_states().len(),
        state == source.spec_states()[column as int],
        target.wf(),
        target.faithful(),
        linear::entries_fit(old(list)@, target.spec_states().len() as usize, (column + 1) as usize),
        column < usize::MAX,
        target.spec_states().len() <= usize::MAX,
    ensures
        match (
            result,
            shift_coupling_entries(
                *source,
                *target,
                term@.operator,
                term@.couplings,
                column,
                orbit,
                term@.couplings.len(),
            ),
        ) {
            (Ok(_), Ok(added)) => {
                &&& final(list)@ == old(list)@ + added
                &&& linear::entries_fit(
                    final(list)@,
                    target.spec_states().len() as usize,
                    (column + 1) as usize,
                )
            },
            (Err(error), Err(stated)) => error == stated,
            _ => false,
        },
{
    let ghost start = list@;
    let ghost model = term@;
    let couplings: &Vec<Coupling<S>> = term.couplings();
    let mut next: usize = 0;
    assert(list@ =~= start + Seq::empty());
    while next < couplings.len()
        invariant
            next <= couplings@.len(),
            source.wf(),
            source.acts_on(state),
            column < source.spec_states().len(),
            state == source.spec_states()[column as int],
            target.wf(),
            target.faithful(),
            column < usize::MAX,
            target.spec_states().len() <= usize::MAX,
            model == term@,
            model.couplings == model::couplings_of(couplings@),
            linear::entries_fit(list@, target.spec_states().len() as usize, (column + 1) as usize),
            shift_coupling_entries(
                *source,
                *target,
                model.operator,
                model.couplings,
                column,
                orbit,
                next as nat,
            ) is Ok,
            list@ == start + shift_coupling_entries(
                *source,
                *target,
                model.operator,
                model.couplings,
                column,
                orbit,
                next as nat,
            )->Ok_0,
        decreases couplings@.len() - next,
    {
        let coupling: &Coupling<S> = &couplings[next];
        let ghost before = shift_coupling_entries(
            *source,
            *target,
            model.operator,
            model.couplings,
            column,
            orbit,
            next as nat,
        )->Ok_0;
        assert(model.couplings[next as int] == coupling@);
        let listed: Result<()> = match hold::<B::State, B::Phase, S>(
            source.apply_local_unreduced_transitions(
                state,
                term.operator().as_str(),
                coupling.sites.as_slice(),
            ),
        ) {
            Ok(transitions) => {
                let outcome: Result<()> = list_shift_entries(
                    target,
                    column,
                    orbit,
                    &transitions,
                    coupling.coefficient,
                    list,
                );
                proof {
                    if let Ok(added) = shift_entries::<B, S>(
                        *target,
                        column,
                        orbit,
                        basis::transitions_view(transitions@),
                        coupling.coefficient,
                        transitions@.len(),
                    ) {
                        assert(start + before + added =~= start + (before + added));
                    }
                }
                outcome
            },
            Err(error) => Err(error),
        };
        if let Err(error) = listed {
            proof {
                lemma_shift_couplings_fail(
                    *source,
                    *target,
                    model.operator,
                    model.couplings,
                    column,
                    orbit,
                    (next + 1) as nat,
                    couplings@.len(),
                );
            }
            return Err(error);
        }
        next += 1;
    }
    Ok(())
}

fn list_shift_terms<B: Physical + Reduction, S>(
    source: &B,
    target: &B,
    terms: &Vec<OperatorSpec<S>>,
    state: B::State,
    column: usize,
    orbit: usize,
    list: &mut Vec<(usize, usize, S)>,
) -> (result: Result<()>) where S: Weighing<B::Phase> + Weighing<B::Turned>
    requires
        source.wf(),
        source.acts_on(state),
        column < source.spec_states().len(),
        state == source.spec_states()[column as int],
        target.wf(),
        target.faithful(),
        linear::entries_fit(old(list)@, target.spec_states().len() as usize, (column + 1) as usize),
        column < usize::MAX,
        target.spec_states().len() <= usize::MAX,
    ensures
        match (
            result,
            shift_term_entries(
                *source,
                *target,
                model::terms_of(terms@),
                column,
                orbit,
                terms@.len(),
            ),
        ) {
            (Ok(_), Ok(added)) => {
                &&& final(list)@ == old(list)@ + added
                &&& linear::entries_fit(
                    final(list)@,
                    target.spec_states().len() as usize,
                    (column + 1) as usize,
                )
            },
            (Err(error), Err(stated)) => error == stated,
            _ => false,
        },
{
    let ghost start = list@;
    let ghost models = model::terms_of(terms@);
    let mut next: usize = 0;
    assert(list@ =~= start + Seq::empty());
    while next < terms.len()
        invariant
            next <= terms@.len(),
            source.wf(),
            source.acts_on(state),
            column < source.spec_states().len(),
            state == source.spec_states()[column as int],
            target.wf(),
            target.faithful(),
            column < usize::MAX,
            target.spec_states().len() <= usize::MAX,
            models == model::terms_of(terms@),
            linear::entries_fit(list@, target.spec_states().len() as usize, (column + 1) as usize),
            shift_term_entries(*source, *target, models, column, orbit, next as nat) is Ok,
            list@ == start + shift_term_entries(
                *source,
                *target,
                models,
                column,
                orbit,
                next as nat,
            )->Ok_0,
        decreases terms@.len() - next,
    {
        let ghost before = shift_term_entries(
            *source,
            *target,
            models,
            column,
            orbit,
            next as nat,
        )->Ok_0;
        assert(models[next as int] == terms@[next as int]@);
        match list_shift_couplings(source, target, &terms[next], state, column, orbit, list) {
            Ok(_) => {
                proof {
                    let model = models[next as int];
                    let part = shift_coupling_entries(
                        *source,
                        *target,
                        model.operator,
                        model.couplings,
                        column,
                        orbit,
                        model.couplings.len(),
                    )->Ok_0;
                    assert(start + before + part =~= start + (before + part));
                }
            },
            Err(error) => {
                proof {
                    lemma_shift_terms_fail(
                        *source,
                        *target,
                        models,
                        column,
                        orbit,
                        (next + 1) as nat,
                        terms@.len(),
                    );
                }
                return Err(error);
            },
        }
        next += 1;
    }
    Ok(())
}

/// The matrix of terms from the sector of one basis to that of another: the source acts before
/// any reduction, and the target takes up what it can.
pub fn sector_shift<B: Physical + Reduction, S>(
    source: &B,
    target: &B,
    terms: &Vec<OperatorSpec<S>>,
) -> (result: Result<Operator<S>>) where S: Weighing<B::Phase> + Weighing<B::Turned>
    requires
        source.wf(),
        source.faithful(),
        target.wf(),
        target.faithful(),
    ensures
        assembly::operator_is(result, shift_between(*source, *target, model::terms_of(terms@))),
{
    let ghost models = model::terms_of(terms@);
    let rows: usize = target.len();
    let columns: usize = source.len();
    let mut entries: Vec<(usize, usize, S)> = Vec::new();
    let mut column: usize = 0;
    while column < columns
        invariant
            column <= columns,
            source.wf(),
            source.faithful(),
            target.wf(),
            target.faithful(),
            columns == source.spec_states().len(),
            rows == target.spec_states().len(),
            models == model::terms_of(terms@),
            linear::entries_fit(entries@, rows, column),
            shift_column_entries(*source, *target, models, column as nat) == Ok::<
                Seq<(usize, usize, S)>,
                QmbedError,
            >(entries@),
        decreases columns - column,
    {
        let listed: Result<()> = match source.state(column) {
            Ok(state) => match source.transition_orbit_size(state) {
                Ok(orbit) => {
                    proof {
                        source.acts_on_states(column as int);
                        assert forall|i: int| 0 <= i < entries@.len() implies (
                        #[trigger] entries@[i]).0 < rows && entries@[i].1 < (column
                            + 1) as usize by {
                        }
                    }
                    list_shift_terms(source, target, terms, state, column, orbit, &mut entries)
                },
                Err(error) => Err(error),
            },
            Err(error) => Err(error),
        };
        if let Err(error) = listed {
            proof {
                lemma_shift_columns_fail(
                    *source,
                    *target,
                    models,
                    (column + 1) as nat,
                    columns as nat,
                );
            }
            return Err(error);
        }
        column += 1;
    }
    Operator::from_triplets(rows, columns, entries, MatrixFormat::MatrixFree)
}

/// Terms in the site labels that two models share.
pub open spec fn shared_terms<B: Physical + Reduction, S>(
    source: EdModel<B, S>,
    target: EdModel<B, S>,
    terms: Seq<TermModel<S>>,
) -> core::result::Result<Seq<TermModel<S>>, QmbedError> where
    S: Weighing<B::Phase> + Weighing<B::Turned>,
 {
    if target.spec_site_permutation() != source.spec_site_permutation() {
        Err(
            QmbedError::InvalidOptions(
                Reason::Text("models must use the same site permutation for cross-basis operations"),
            ),
        )
    } else {
        assembly::prepared(target.spec_site_permutation(), terms)
    }
}

/// Whether a batch was carried from one model to another by terms between optional subspaces. The
/// terms meet the bases only where there is a vector to act on.
pub open spec fn carried_by_terms<B: Physical + Reduction, S>(
    result: Result<Vec<Vec<S>>>,
    source: EdModel<B, S>,
    source_projector: Option<OperatorModel<S>>,
    target: EdModel<B, S>,
    target_projector: Option<OperatorModel<S>>,
    terms: Seq<TermModel<S>>,
    inputs: Seq<Vec<S>>,
) -> bool where S: Weighing<B::Phase> + Weighing<B::Turned> {
    match shared_terms(source, target, terms) {
        Err(error) => result matches Err(found) && found == error,
        Ok(list) => if inputs.len() == 0 {
            result matches Ok(images) && images@.len() == 0
        } else {
            match shift_between(source.spec_basis(), target.spec_basis(), list) {
                Ok(shift) => projector::batch_is(
                    result,
                    |k: int| carried(source_projector, shift, target_projector, inputs[k]@),
                    inputs.len(),
                ),
                Err(error) => result matches Err(found) && found == error,
            }
        },
    }
}

/// Whether some vector has another length than the columns of a projector.
pub open spec fn some_unliftable<S: linear::Scalar>(
    projector: Option<OperatorModel<S>>,
    inputs: Seq<Vec<S>>,
) -> bool {
    projector matches Some(model) && exists|k: int|
        0 <= k < inputs.len() && (#[trigger] inputs[k])@.len() != model.columns
}

fn holds_unliftable<S: linear::Scalar>(
    projector: Option<&BasisProjector<S>>,
    inputs: &Vec<Vec<S>>,
) -> (answer: bool)
    requires
        projector matches Some(held) ==> held.valid(),
    ensures
        answer == some_unliftable(crossing::model_of(projector), inputs@),
{
    match projector {
        Some(held) => {
            let columns: usize = held.reduced_dimension();
            let mut next: usize = 0;
            while next < inputs.len()
                invariant
                    next <= inputs@.len(),
                    projector == Some(held),
                    columns == held@.columns,
                    forall|k: int| 0 <= k < next ==> (#[trigger] inputs@[k])@.len() == columns,
                decreases inputs@.len() - next,
            {
                if inputs[next].len() != columns {
                    assert(inputs@[next as int]@.len() != columns);
                    return true;
                }
                next += 1;
            }
            false
        },
        None => false,
    }
}

/// A vector of a subspace carried into another by a matrix between the parents.
pub open spec fn carried<S: linear::Scalar>(
    source: Option<OperatorModel<S>>,
    shift: OperatorModel<S>,
    target: Option<OperatorModel<S>>,
    input: Seq<S>,
) -> core::result::Result<Seq<S>, QmbedError> {
    match crossing::maybe_lifted(source, input) {
        Err(error) => Err(error),
        Ok(lifted) => if lifted.len() != shift.columns {
            Err(
                QmbedError::DimensionMismatch(Reason::Length {
                    what: "operator action input",
                    found: lifted.len() as usize,
                    expected: shift.columns,
                }),
            )
        } else {
            crossing::maybe_projected(
                target,
                linear::entries_apply(shift.entries, lifted, shift.rows as nat),
            )
        },
    }
}

/// Where every vector can be lifted and the projectors fit, only a wrong length fails.
proof fn lemma_stages_agree<S: linear::Scalar>(
    result: Result<Vec<Vec<S>>>,
    source: Option<OperatorModel<S>>,
    shift: Operator<S>,
    target: Option<OperatorModel<S>>,
    inputs: Seq<Vec<S>>,
)
    requires
        shift.valid(),
        !some_unliftable(source, inputs),
        crossing::subspaces_refused(source, shift@.columns, target, shift@.rows) is None,
        crossing::batch_carried(result, source, shift, target, inputs),
    ensures
        projector::batch_is(
            result,
            |k: int| carried(source, shift@, target, inputs[k]@),
            inputs.len(),
        ),
{
    let lifts = |k: int| crossing::maybe_lifted(source, inputs[k]@);
    let acts = |k: int| crossing::acted_on(source, shift, inputs[k]@);
    let left = |k: int| crossing::carried_between(source, shift, target, inputs[k]@);
    let right = |k: int| carried(source, shift@, target, inputs[k]@);
    assert forall|k: int| #[trigger] left(k) == right(k) by {}
    assert(left =~= right);
    assert forall|k: int| 0 <= k < inputs.len() implies #[trigger] lifts(k) is Ok by {
        assert(inputs[k]@ == inputs[k]@);
    }
    assert(!crossing::some_failure(lifts, inputs.len()));
    if crossing::some_failure(acts, inputs.len()) {
        assert(projector::batch_is(result, acts, inputs.len()));
        if let Ok(list) = result {
            let k = choose|k: int| 0 <= k < inputs.len() && #[trigger] acts(k) is Err;
            assert(list@[k]@ == list@[k]@);
        } else {
            let error = result->Err_0;
            let k = choose|k: int|
                0 <= k < inputs.len() && projector::first_failure(acts, k) && #[trigger] acts(k)
                    == Err::<Seq<S>, QmbedError>(error);
            assert(right(k) == left(k));
            assert(left(k) == Err::<Seq<S>, QmbedError>(error));
            assert forall|j: int| 0 <= j < k implies #[trigger] right(j) is Ok by {
                assert(acts(j) is Ok);
                let lifted = lifts(j)->Ok_0;
                linear::lemma_entries_apply(
                    shift@.entries,
                    lifted,
                    shift@.rows,
                    shift@.columns,
                );
            }
            assert(projector::first_failure(right, k));
        }
    }
}

impl<B: Physical + Reduction, S> EdModel<B, S> where S: Weighing<B::Phase> + Weighing<B::Turned> {
    fn terms_from(&self, source: &Self, terms: &Vec<OperatorSpec<S>>) -> (result: Result<
        Vec<OperatorSpec<S>>,
    >)
        requires
            self.valid(),
            source.valid(),
        ensures
            match shared_terms(*source, *self, model::terms_of(terms@)) {
                Ok(list) => result matches Ok(found) && model::terms_of(found@) == list,
                Err(error) => result matches Err(found) && found == error,
            },
    {
        proof {
            self.lemma_valid();
            source.lemma_valid();
        }
        match self.ensure_same_site_convention(source) {
            Ok(_) => self.prepare_terms(terms),
            Err(error) => Err(error),
        }
    }

    /// Images in the basis of the model of vectors of another model under local terms.
    pub fn apply_terms_from_batch(
        &self,
        source: &Self,
        terms: &Vec<OperatorSpec<S>>,
        inputs: &Vec<Vec<S>>,
    ) -> (result: Result<Vec<Vec<S>>>)
        requires
            self.valid(),
            self.spec_basis().faithful(),
            source.valid(),
            source.spec_basis().faithful(),
        ensures
            carried_by_terms(
                result,
                *source,
                None,
                *self,
                None,
                model::terms_of(terms@),
                inputs@,
            ),
    {
        Self::apply_terms_between_subspaces_batch(source, None, self, None, terms, inputs)
    }

    /// Images of vectors of a subspace of one model in a subspace of another under local terms:
    /// the vectors are lifted, the terms act, and the images are projected. Without a projector
    /// a model is its own subspace.
    pub fn apply_terms_between_subspaces_batch(
        source: &Self,
        source_projector: Option<&BasisProjector<S>>,
        target: &Self,
        target_projector: Option<&BasisProjector<S>>,
        terms: &Vec<OperatorSpec<S>>,
        inputs: &Vec<Vec<S>>,
    ) -> (result: Result<Vec<Vec<S>>>)
        requires
            source.valid(),
            source.spec_basis().faithful(),
            target.valid(),
            target.spec_basis().faithful(),
            source_projector matches Some(held) ==> held.valid(),
            target_projector matches Some(held) ==> held.valid(),
        ensures
            match crossing::subspaces_refused(
                crossing::model_of(source_projector),
                source.spec_basis().spec_states().len() as usize,
                crossing::model_of(target_projector),
                target.spec_basis().spec_states().len() as usize,
            ) {
                Some(error) => result matches Err(found) && found == error,
                None => if some_unliftable(crossing::model_of(source_projector), inputs@) {
                    result matches Err(found) && found == projector::wrong_length()
                } else {
                    carried_by_terms(
                        result,
                        *source,
                        crossing::model_of(source_projector),
                        *target,
                        crossing::model_of(target_projector),
                        model::terms_of(terms@),
                        inputs@,
                    )
                },
            },
    {
        proof {
            source.lemma_valid();
            target.lemma_valid();
        }
        if let Some(held) = source_projector {
            if held.source_dimension() != source.dimension() {
                return Err(
                    QmbedError::DimensionMismatch(
                        Reason::Text("source projector rows do not match the source parent basis"),
                    ),
                );
            }
        }
        if let Some(held) = target_projector {
            if held.source_dimension() != target.dimension() {
                return Err(
                    QmbedError::DimensionMismatch(
                        Reason::Text("target projector rows do not match the target parent basis"),
                    ),
                );
            }
        }
        if holds_unliftable(source_projector, inputs) {
            return Err(
                QmbedError::DimensionMismatch(Reason::Text("projector input or output length does not match")),
            );
        }
        let list: Vec<OperatorSpec<S>> = match target.terms_from(source, terms) {
            Ok(list) => list,
            Err(error) => {
                return Err(error);
            },
        };
        if inputs.len() == 0 {
            return Ok(Vec::new());
        }
        match sector_shift(source.basis(), target.basis(), &list) {
            Ok(shift) => {
                let result: Result<Vec<Vec<S>>> = apply_between_subspaces_batch(
                    source_projector,
                    &shift,
                    target_projector,
                    inputs,
                );
                proof {
                    lemma_stages_agree(
                        result,
                        crossing::model_of(source_projector),
                        shift,
                        crossing::model_of(target_projector),
                        inputs@,
                    );
                }
                result
            },
            Err(error) => Err(error),
        }
    }
}

} // verus!

//! Exchange phases applied to states, and the canonical side of a cut.

use vstd::prelude::*;

use crate::ensemble::fills_square;
use crate::error::{QmbedError, Reason, Result};
use crate::exchange;
use crate::exchange::{
    fermionic_subsystem_phases, noncommuting_subsystem_exchange_phases,
    noncommuting_subsystem_phases, NoncommutingGroup,
};
use crate::linear::Scalar;
use crate::matrix_subspace;
use crate::matrix_subspace::{holds_phases, refuse_value, Normed, PhaseScalar};
use crate::ordered;
use crate::ordered::{sort_dedup, Ranked};
use crate::subsystem;
use crate::subsystem::{list_environment, mark_retained, subsystem_index_map, SubsystemIndexMap};
use crate::symmetry::PhaseFactor;

verus! {

/// Amplitudes multiplied by phases.
pub open spec fn phased<P, S: PhaseScalar<P>>(state: Seq<S>, phases: Seq<P>) -> Seq<S> {
    Seq::new(state.len(), |i: int| state[i].spec_times(S::spec_from_phase(phases[i])))
}

/// Elements of a matrix in row order multiplied by the phases of their rows and the conjugate
/// phases of their columns.
pub open spec fn phased_matrix<P, S: PhaseScalar<P>>(matrix: Seq<S>, phases: Seq<P>) -> Seq<S> {
    let size = phases.len() as int;
    Seq::new(
        matrix.len(),
        |i: int|
            matrix[i].spec_times(
                S::spec_from_phase(phases[i / size]).spec_times(
                    S::spec_from_phase(phases[i % size]).spec_conjugate(),
                ),
            ),
    )
}

/// A scalar with a sign.
pub open spec fn with_sign<S: Normed>(value: S, negative: bool) -> S {
    if negative {
        S::spec_zero().spec_minus(value)
    } else {
        value
    }
}

/// Amplitudes with signs.
pub open spec fn signed<S: Normed>(state: Seq<S>, signs: Seq<i8>) -> Seq<S> {
    Seq::new(state.len(), |i: int| with_sign(state[i], signs[i] < 0))
}

/// Elements of a matrix in row order with the signs of their rows and columns.
pub open spec fn signed_matrix<S: Normed>(matrix: Seq<S>, signs: Seq<i8>) -> Seq<S> {
    let size = signs.len() as int;
    Seq::new(
        matrix.len(),
        |i: int| with_sign(matrix[i], (signs[i / size] < 0) != (signs[i % size] < 0)),
    )
}

fn give_sign<S: Normed>(value: &S, negative: bool) -> (result: S)
    ensures
        result == with_sign(*value, negative),
{
    if negative {
        S::zero().minus(value)
    } else {
        *value
    }
}

proof fn lemma_digits(place: int, size: int)
    requires
        0 <= place < size * size,
        size >= 0,
    ensures
        size > 0,
        0 <= place / size < size,
        0 <= place % size < size,
{
    assert(size > 0) by (nonlinear_arith)
        requires
            0 <= place < size * size,
            size >= 0,
    ;
    vstd::arithmetic::div_mod::lemma_multiply_divide_lt(place, size, size);
    vstd::arithmetic::div_mod::lemma_div_pos_is_pos(place, size);
    vstd::arithmetic::div_mod::lemma_mod_bound(place, size);
}

fn multiply_state<P, S: PhaseScalar<P>>(state: &Vec<S>, phases: &Vec<P>) -> (result: Vec<S>)
    requires
        state@.len() == phases@.len(),
    ensures
        result@ == phased(state@, phases@),
{
    let mut result: Vec<S> = Vec::new();
    let mut next: usize = 0;
    while next < state.len()
        invariant
            next <= state@.len(),
            state@.len() == phases@.len(),
            result@ == phased(state@, phases@).take(next as int),
        decreases state@.len() - next,
    {
        result.push(state[next].times(&S::from_phase(&phases[next])));
        next += 1;
        assert(result@ =~= phased(state@, phases@).take(next as int));
    }
    assert(result@ =~= phased(state@, phases@));
    result
}

fn multiply_matrix<P, S: PhaseScalar<P>>(matrix: &Vec<S>, phases: &Vec<P>) -> (result: Vec<S>)
    requires
        matrix@.len() == phases@.len() * phases@.len(),
    ensures
        result@ == phased_matrix(matrix@, phases@),
{
    let size: usize = phases.len();
    let mut result: Vec<S> = Vec::new();
    let mut next: usize = 0;
    while next < matrix.len()
        invariant
            next <= matrix@.len(),
            size == phases@.len(),
            matrix@.len() == size * size,
            result@ == phased_matrix(matrix@, phases@).take(next as int),
        decreases matrix@.len() - next,
    {
        proof {
            lemma_digits(next as int, size as int);
        }
        let row: S = S::from_phase(&phases[next / size]);
        let column: S = S::from_phase(&phases[next % size]).conjugate();
        result.push(matrix[next].times(&row.times(&column)));
        next += 1;
        assert(result@ =~= phased_matrix(matrix@, phases@).take(next as int));
    }
    assert(result@ =~= phased_matrix(matrix@, phases@));
    result
}

fn sign_state<S: Normed>(state: &Vec<S>, signs: &Vec<i8>) -> (result: Vec<S>)
    requires
        state@.len() == signs@.len(),
    ensures
        result@ == signed(state@, signs@),
{
    let mut result: Vec<S> = Vec::new();
    let mut next: usize = 0;
    while next < state.len()
        invariant
            next <= state@.len(),
            state@.len() == signs@.len(),
            result@ == signed(state@, signs@).take(next as int),
        decreases state@.len() - next,
    {
        result.push(give_sign(&state[next], signs[next] < 0));
        next += 1;
        assert(result@ =~= signed(state@, signs@).take(next as int));
    }
    assert(result@ =~= signed(state@, signs@));
    result
}

fn sign_matrix<S: Normed>(matrix: &Vec<S>, signs: &Vec<i8>) -> (result: Vec<S>)
    requires
        matrix@.len() == signs@.len() * signs@.len(),
    ensures
        result@ == signed_matrix(matrix@, signs@),
{
    let size: usize = signs.len();
    let mut result: Vec<S> = Vec::new();
    let mut next: usize = 0;
    while next < matrix.len()
        invariant
            next <= matrix@.len(),
            size == signs@.len(),
            matrix@.len() == size * size,
            result@ == signed_matrix(matrix@, signs@).take(next as int),
        decreases matrix@.len() - next,
    {
        proof {
            lemma_digits(next as int, size as int);
        }
        let negative: bool = (signs[next / size] < 0) != (signs[next % size] < 0);
        result.push(give_sign(&matrix[next], negative));
        next += 1;
        assert(result@ =~= signed_matrix(matrix@, signs@).take(next as int));
    }
    assert(result@ =~= signed_matrix(matrix@, signs@));
    result
}

/// Why no exchange phases exist, if they do not.
pub open spec fn phases_error(
    dimensions: Seq<usize>,
    retained: Seq<usize>,
    groups: Seq<Seq<usize>>,
) -> Option<QmbedError> {
    match subsystem::split_error(dimensions, retained) {
        Some(error) => Some(error),
        None => exchange::groups_error(dimensions.len(), Some(dimensions), groups, groups.len()),
    }
}

/// Whether a state has the exchange phases of a regrouping.
pub open spec fn has_phases<P: PhaseFactor, S: PhaseScalar<P>>(
    state: Seq<S>,
    dimensions: Seq<usize>,
    retained: Seq<usize>,
    groups: Seq<NoncommutingGroup<P>>,
    result: Seq<S>,
) -> bool {
    exists|phases: Seq<P>| #[trigger]
        exchange::product_phases(dimensions, retained, groups, phases)
            && matrix_subspace::phases_held::<P, S>(phases) && result == phased(
            state,
            phases,
        )
}

/// Whether a density matrix has the exchange phases of a regrouping.
pub open spec fn matrix_has_phases<P: PhaseFactor, S: PhaseScalar<P>>(
    matrix: Seq<S>,
    dimensions: Seq<usize>,
    retained: Seq<usize>,
    groups: Seq<NoncommutingGroup<P>>,
    result: Seq<S>,
) -> bool {
    exists|phases: Seq<P>| #[trigger]
        exchange::product_phases(dimensions, retained, groups, phases)
            && matrix_subspace::phases_held::<P, S>(phases) && result == phased_matrix(
            matrix,
            phases,
        )
}

/// Whether the scalars do not hold some exchange phase of a regrouping.
pub open spec fn phases_unheld<P: PhaseFactor, S: PhaseScalar<P>>(
    dimensions: Seq<usize>,
    retained: Seq<usize>,
    groups: Seq<NoncommutingGroup<P>>,
) -> bool {
    exists|phases: Seq<P>| #[trigger]
        exchange::product_phases(dimensions, retained, groups, phases)
            && !matrix_subspace::phases_held::<P, S>(phases)
}

/// Whether a state has the exchange signs of a regrouping.
pub open spec fn has_signs<S: Normed>(
    state: Seq<S>,
    dimensions: Seq<usize>,
    retained: Seq<usize>,
    groups: Seq<Seq<usize>>,
    result: Seq<S>,
) -> bool {
    exists|signs: Seq<i8>| #[trigger]
        exchange::product_signs(dimensions, retained, groups, signs) && result == signed(
            state,
            signs,
        )
}

/// Whether a density matrix has the exchange signs of a regrouping.
pub open spec fn matrix_has_signs<S: Normed>(
    matrix: Seq<S>,
    dimensions: Seq<usize>,
    retained: Seq<usize>,
    groups: Seq<Seq<usize>>,
    result: Seq<S>,
) -> bool {
    exists|signs: Seq<i8>| #[trigger]
        exchange::product_signs(dimensions, retained, groups, signs) && result == signed_matrix(
            matrix,
            signs,
        )
}

/// A pure state with the exchange phases of a regrouping.
pub fn apply_noncommuting_subsystem_exchange_phases<P: PhaseFactor, S: PhaseScalar<P>>(
    state: &Vec<S>,
    local_dimensions: &[usize],
    retained_sites: &[usize],
    noncommuting_groups: &Vec<NoncommutingGroup<P>>,
) -> (result: Result<Vec<S>>)
    ensures
        match result {
            Ok(changed) => {
                &&& phases_error(
                    local_dimensions@,
                    retained_sites@,
                    exchange::group_sites(noncommuting_groups@),
                ) is None
                &&& state@.len() == subsystem::stride(local_dimensions@, local_dimensions@.len())
                &&& has_phases(
                    state@,
                    local_dimensions@,
                    retained_sites@,
                    noncommuting_groups@,
                    changed@,
                )
            },
            Err(error) => match phases_error(
                local_dimensions@,
                retained_sites@,
                exchange::group_sites(noncommuting_groups@),
            ) {
                Some(stated) => error == stated,
                None => if state@.len() != subsystem::stride(
                    local_dimensions@,
                    local_dimensions@.len(),
                ) {
                    error == QmbedError::DimensionMismatch(
                        Reason::Text("state length does not match the noncommuting subsystem layout"),
                    )
                } else {
                    &&& phases_unheld::<P, S>(
                        local_dimensions@,
                        retained_sites@,
                        noncommuting_groups@,
                    )
                    &&& error == matrix_subspace::no_value()
                },
            },
        },
{
    let phases: Vec<P> = match noncommuting_subsystem_exchange_phases(
        local_dimensions,
        retained_sites,
        noncommuting_groups,
    ) {
        Ok(phases) => phases,
        Err(error) => {
            return Err(error);
        },
    };
    if state.len() != phases.len() {
        return Err(
            QmbedError::DimensionMismatch(
                Reason::Text("state length does not match the noncommuting subsystem layout"),
            ),
        );
    }
    if !holds_phases::<P, S>(&phases) {
        return Err(refuse_value());
    }
    Ok(multiply_state(state, &phases))
}

/// A density matrix with the exchange phases of a regrouping on both axes.
pub fn apply_noncommuting_subsystem_exchange_phases_density<P: PhaseFactor, S: PhaseScalar<P>>(
    density: &Vec<S>,
    local_dimensions: &[usize],
    retained_sites: &[usize],
    noncommuting_groups: &Vec<NoncommutingGroup<P>>,
) -> (result: Result<Vec<S>>)
    ensures
        ({
            let full = subsystem::stride(local_dimensions@, local_dimensions@.len());
            match result {
                Ok(changed) => {
                    &&& phases_error(
                        local_dimensions@,
                        retained_sites@,
                        exchange::group_sites(noncommuting_groups@),
                    ) is None
                    &&& density@.len() == full * full
                    &&& matrix_has_phases(
                        density@,
                        local_dimensions@,
                        retained_sites@,
                        noncommuting_groups@,
                        changed@,
                    )
                },
                Err(error) => match phases_error(
                    local_dimensions@,
                    retained_sites@,
                    exchange::group_sites(noncommuting_groups@),
                ) {
                    Some(stated) => error == stated,
                    None => if density@.len() != full * full {
                        error == QmbedError::DimensionMismatch(
                            Reason::Text("density matrix does not match the noncommuting subsystem layout"),
                        )
                    } else {
                        &&& phases_unheld::<P, S>(
                            local_dimensions@,
                            retained_sites@,
                            noncommuting_groups@,
                        )
                        &&& error == matrix_subspace::no_value()
                    },
                },
            }
        }),
{
    let phases: Vec<P> = match noncommuting_subsystem_exchange_phases(
        local_dimensions,
        retained_sites,
        noncommuting_groups,
    ) {
        Ok(phases) => phases,
        Err(error) => {
            return Err(error);
        },
    };
    if !fills_square(density, phases.len()) {
        return Err(
            QmbedError::DimensionMismatch(
                Reason::Text("density matrix does not match the noncommuting subsystem layout"),
            ),
        );
    }
    if !holds_phases::<P, S>(&phases) {
        return Err(refuse_value());
    }
    Ok(multiply_matrix(density, &phases))
}

/// What a signed state is, or why it is refused.
pub open spec fn signed_is<S: Normed>(
    state: Seq<S>,
    dimensions: Seq<usize>,
    retained: Seq<usize>,
    groups: Seq<Seq<usize>>,
    refusal: QmbedError,
    result: Result<Vec<S>>,
) -> bool {
    match result {
        Ok(changed) => {
            &&& phases_error(dimensions, retained, groups) is None
            &&& state.len() == subsystem::stride(dimensions, dimensions.len())
            &&& has_signs(state, dimensions, retained, groups, changed@)
        },
        Err(error) => match phases_error(dimensions, retained, groups) {
            Some(stated) => error == stated,
            None => {
                &&& state.len() != subsystem::stride(dimensions, dimensions.len())
                &&& error == refusal
            },
        },
    }
}

/// What a signed density matrix is, or why it is refused.
pub open spec fn signed_matrix_is<S: Normed>(
    matrix: Seq<S>,
    dimensions: Seq<usize>,
    retained: Seq<usize>,
    groups: Seq<Seq<usize>>,
    refusal: QmbedError,
    result: Result<Vec<S>>,
) -> bool {
    let full = subsystem::stride(dimensions, dimensions.len());
    match result {
        Ok(changed) => {
            &&& phases_error(dimensions, retained, groups) is None
            &&& matrix.len() == full * full
            &&& matrix_has_signs(matrix, dimensions, retained, groups, changed@)
        },
        Err(error) => match phases_error(dimensions, retained, groups) {
            Some(stated) => error == stated,
            None => {
                &&& matrix.len() != full * full
                &&& error == refusal
            },
        },
    }
}

/// A pure state with the exchange signs of selected groups.
pub fn apply_noncommuting_subsystem_phases<S: Normed>(
    state: &Vec<S>,
    local_dimensions: &[usize],
    retained_sites: &[usize],
    noncommuting_groups: &[Vec<usize>],
) -> (result: Result<Vec<S>>)
    ensures
        signed_is(
            state@,
            local_dimensions@,
            retained_sites@,
            exchange::site_lists(noncommuting_groups@),
            QmbedError::DimensionMismatch(
                Reason::Text("state length does not match the noncommuting subsystem layout"),
            ),
            result,
        ),
{
    let signs: Vec<i8> = match noncommuting_subsystem_phases(
        local_dimensions,
        retained_sites,
        noncommuting_groups,
    ) {
        Ok(signs) => signs,
        Err(error) => {
            return Err(error);
        },
    };
    if state.len() != signs.len() {
        return Err(
            QmbedError::DimensionMismatch(
                Reason::Text("state length does not match the noncommuting subsystem layout"),
            ),
        );
    }
    Ok(sign_state(state, &signs))
}

/// A pure state with the signs of fermionic mode ordering.
pub fn apply_fermionic_subsystem_phases<S: Normed>(
    state: &Vec<S>,
    local_dimensions: &[usize],
    retained_sites: &[usize],
) -> (result: Result<Vec<S>>)
    ensures
        signed_is(
            state@,
            local_dimensions@,
            retained_sites@,
            seq![exchange::all_sites(local_dimensions@.len())],
            QmbedError::DimensionMismatch(
                Reason::Text("state length does not match the fermionic subsystem layout"),
            ),
            result,
        ),
{
    let signs: Vec<i8> = match fermionic_subsystem_phases(local_dimensions, retained_sites) {
        Ok(signs) => signs,
        Err(error) => {
            return Err(error);
        },
    };
    if state.len() != signs.len() {
        return Err(
            QmbedError::DimensionMismatch(
                Reason::Text("state length does not match the fermionic subsystem layout"),
            ),
        );
    }
    Ok(sign_state(state, &signs))
}

/// A density matrix with the exchange signs of selected groups on both axes.
pub fn apply_noncommuting_subsystem_phases_density<S: Normed>(
    density: &Vec<S>,
    local_dimensions: &[usize],
    retained_sites: &[usize],
    noncommuting_groups: &[Vec<usize>],
) -> (result: Result<Vec<S>>)
    ensures
        signed_matrix_is(
            density@,
            local_dimensions@,
            retained_sites@,
            exchange::site_lists(noncommuting_groups@),
            QmbedError::DimensionMismatch(
                Reason::Text("density matrix does not match the noncommuting subsystem layout"),
            ),
            result,
        ),
{
    let signs: Vec<i8> = match noncommuting_subsystem_phases(
        local_dimensions,
        retained_sites,
        noncommuting_groups,
    ) {
        Ok(signs) => signs,
        Err(error) => {
            return Err(error);
        },
    };
    if !fills_square(density, signs.len()) {
        return Err(
            QmbedError::DimensionMismatch(
                Reason::Text("density matrix does not match the noncommuting subsystem layout"),
            ),
        );
    }
    Ok(sign_matrix(density, &signs))
}

/// A density matrix with the signs of fermionic mode ordering on both axes.
pub fn apply_fermionic_subsystem_phases_density<S: Normed>(
    density: &Vec<S>,
    local_dimensions: &[usize],
    retained_sites: &[usize],
) -> (result: Result<Vec<S>>)
    ensures
        signed_matrix_is(
            density@,
            local_dimensions@,
            retained_sites@,
            seq![exchange::all_sites(local_dimensions@.len())],
            QmbedError::DimensionMismatch(
                Reason::Text("density matrix does not match the fermionic subsystem layout"),
            ),
            result,
        ),
{
    let signs: Vec<i8> = match fermionic_subsystem_phases(local_dimensions, retained_sites) {
        Ok(signs) => signs,
        Err(error) => {
            return Err(error);
        },
    };
    if !fills_square(density, signs.len()) {
        return Err(
            QmbedError::DimensionMismatch(
                Reason::Text("density matrix does not match the fermionic subsystem layout"),
            ),
        );
    }
    Ok(sign_matrix(density, &signs))
}

/// Whether a list of sites does not come behind another in dictionary order, from a place on
/// up to which they agree.
pub open spec fn not_behind(left: Seq<usize>, right: Seq<usize>, place: nat) -> bool
    decreases left.len() - place,
{
    if place >= left.len() {
        true
    } else if place >= right.len() {
        false
    } else if left[place as int] != right[place as int] {
        left[place as int] < right[place as int]
    } else {
        not_behind(left, right, place + 1)
    }
}

fn check_not_behind(left: &Vec<usize>, right: &Vec<usize>) -> (answer: bool)
    ensures
        answer == not_behind(left@, right@, 0),
{
    let mut place: usize = 0;
    while place < left.len() && place < right.len() && left[place] == right[place]
        invariant
            place <= left@.len(),
            not_behind(left@, right@, 0) == not_behind(left@, right@, place as nat),
        decreases left@.len() - place,
    {
        place += 1;
    }
    if place >= left.len() {
        true
    } else if place >= right.len() {
        false
    } else {
        left[place] < right[place]
    }
}

/// Whether a list holds the retained sites in ascending order.
pub open spec fn ascending_sites(list: Seq<usize>, retained: Seq<usize>) -> bool {
    &&& ordered::strictly_sorted(list)
    &&& forall|site: usize| #[trigger] list.contains(site) <==> retained.contains(site)
}

/// Whether sites are the canonical side of a cut: the smaller factor, and of two equal ones
/// the first in dictionary order.
pub open spec fn canonical_side(
    dimensions: Seq<usize>,
    retained: Seq<usize>,
    ascending: Seq<usize>,
    side: Seq<usize>,
) -> bool {
    let environment = subsystem::environment_of(dimensions.len(), retained);
    let inner = subsystem::product_over(dimensions, retained);
    let outer = subsystem::product_over(dimensions, environment);
    &&& ascending_sites(ascending, retained)
    &&& side == if inner < outer || (inner == outer && not_behind(ascending, environment, 0)) {
        ascending
    } else {
        environment
    }
}

/// Whether sites are the canonical side of a cut.
pub open spec fn is_canonical_side(
    dimensions: Seq<usize>,
    retained: Seq<usize>,
    side: Seq<usize>,
) -> bool {
    exists|ascending: Seq<usize>| #[trigger]
        canonical_side(dimensions, retained, ascending, side)
}

proof fn lemma_environment_ascends(sites: nat, retained: Seq<usize>)
    requires
        sites <= usize::MAX,
    ensures
        ordered::strictly_sorted(subsystem::environment_of(sites, retained)),
    decreases sites,
{
    if sites > 0 {
        let last = (sites - 1) as usize;
        let before = subsystem::environment_of((sites - 1) as nat, retained);
        lemma_environment_ascends((sites - 1) as nat, retained);
        subsystem::lemma_environment((sites - 1) as nat, retained);
        let list = subsystem::environment_of(sites, retained);
        assert forall|i: int, j: int| 0 <= i < j < list.len() implies (#[trigger] list[i]).rank()
            < (#[trigger] list[j]).rank() by {
            assert(before[i] < sites - 1);
            if j < before.len() {
                assert(before[i].rank() < before[j].rank());
            }
        }
    }
}

proof fn lemma_order_is_strict(left: Seq<usize>, right: Seq<usize>, place: nat)
    requires
        place <= left.len(),
        place <= right.len(),
        forall|i: int| 0 <= i < place ==> left[i] == right[i],
        not_behind(left, right, place),
        not_behind(right, left, place),
    ensures
        left == right,
    decreases left.len() - place,
{
    if place < left.len() && place < right.len() {
        lemma_order_is_strict(left, right, place + 1);
    } else {
        assert(left =~= right);
    }
}

proof fn lemma_order_is_total(left: Seq<usize>, right: Seq<usize>, place: nat)
    ensures
        not_behind(left, right, place) || not_behind(right, left, place),
    decreases left.len() - place,
{
    if place < left.len() && place < right.len() && left[place as int] == right[place as int] {
        lemma_order_is_total(left, right, place + 1);
    }
}

/// Both sides of a cut have the same canonical side.
pub proof fn law_canonical_side_is_shared(
    dimensions: Seq<usize>,
    retained: Seq<usize>,
    side: Seq<usize>,
    other: Seq<usize>,
)
    requires
        dimensions.len() <= usize::MAX,
        subsystem::split_error(dimensions, retained) is None,
        is_canonical_side(dimensions, retained, side),
        is_canonical_side(
            dimensions,
            subsystem::environment_of(dimensions.len(), retained),
            other,
        ),
    ensures
        side == other,
{
    let sites = dimensions.len();
    let environment = subsystem::environment_of(sites, retained);
    let back = subsystem::environment_of(sites, environment);
    let ascending = choose|ascending: Seq<usize>| #[trigger]
        canonical_side(dimensions, retained, ascending, side);
    let turned = choose|turned: Seq<usize>| #[trigger]
        canonical_side(dimensions, environment, turned, other);
    subsystem::lemma_retained(sites, retained, retained.len());
    assert(retained.take(retained.len() as int) =~= retained);
    subsystem::lemma_environment(sites, retained);
    subsystem::lemma_environment(sites, environment);
    lemma_environment_ascends(sites, retained);
    lemma_environment_ascends(sites, environment);
    assert forall|site: usize| #[trigger] turned.contains(site) <==> environment.contains(
        site,
    ) by {
    }
    ordered::lemma_strictly_sorted_unique(turned, environment);
    assert forall|site: usize| #[trigger] ascending.contains(site) <==> back.contains(site) by {
        if retained.contains(site) {
            let at = retained.index_of(site);
            assert(retained[at] < sites);
        }
    }
    ordered::lemma_strictly_sorted_unique(ascending, back);
    let a = subsystem::product_over(dimensions, retained);
    let b = subsystem::product_over(dimensions, environment);
    let c = subsystem::product_over(dimensions, back);
    subsystem::law_parts_make_the_whole(dimensions, sites, retained);
    subsystem::law_parts_make_the_whole(dimensions, sites, environment);
    subsystem::lemma_parts_bounded(dimensions, retained, 0);
    assert(a == c) by (nonlinear_arith)
        requires
            a * b == b * c,
            b > 0,
    ;
    lemma_order_is_total(ascending, environment, 0);
    if not_behind(ascending, environment, 0) && not_behind(environment, ascending, 0) {
        lemma_order_is_strict(ascending, environment, 0);
    }
}

/// The canonical side of a cut, so that both sides of it lead to the same spectrum by the
/// same path.
pub fn canonical_schmidt_sites(local_dimensions: &[usize], retained_sites: &[usize]) -> (result: Result<
    Vec<usize>,
>)
    ensures
        match result {
            Ok(side) => {
                &&& subsystem::split_error(local_dimensions@, retained_sites@) is None
                &&& is_canonical_side(local_dimensions@, retained_sites@, side@)
            },
            Err(error) => subsystem::split_error(local_dimensions@, retained_sites@) == Some(error),
        },
{
    let layout: SubsystemIndexMap = match subsystem_index_map(local_dimensions, retained_sites) {
        Ok(layout) => layout,
        Err(error) => {
            return Err(error);
        },
    };
    let marks: Vec<bool> = match mark_retained(local_dimensions.len(), retained_sites) {
        Ok(marks) => marks,
        Err(error) => {
            return Err(error);
        },
    };
    let environment: Vec<usize> = list_environment(&marks, Ghost(retained_sites@));
    let mut given: Vec<usize> = Vec::new();
    let mut next: usize = 0;
    while next < retained_sites.len()
        invariant
            next <= retained_sites@.len(),
            given@ == retained_sites@.take(next as int),
        decreases retained_sites@.len() - next,
    {
        given.push(retained_sites[next]);
        next += 1;
        assert(given@ =~= retained_sites@.take(next as int));
    }
    assert(given@ =~= retained_sites@);
    let ascending: Vec<usize> = sort_dedup(&given);
    let inner: usize = layout.subsystem_dimension;
    let outer: usize = layout.environment_dimension;
    let ghost list = ascending@;
    let side: Vec<usize> = if inner < outer || (inner == outer && check_not_behind(
        &ascending,
        &environment,
    )) {
        ascending
    } else {
        environment
    };
    assert(canonical_side(local_dimensions@, retained_sites@, list, side@));
    Ok(side)
}

/// The square of the dimension of the canonical side of a cut does not exceed the dimension
/// of the whole.
pub proof fn lemma_canonical_side_is_small(
    dimensions: Seq<usize>,
    retained: Seq<usize>,
    side: Seq<usize>,
)
    requires
        dimensions.len() <= usize::MAX,
        subsystem::split_error(dimensions, retained) is None,
        is_canonical_side(dimensions, retained, side),
    ensures
        subsystem::product_over(dimensions, side) * subsystem::product_over(dimensions, side)
            <= subsystem::stride(dimensions, dimensions.len()),
        subsystem::stride(dimensions, dimensions.len()) <= usize::MAX,
{
    let sites = dimensions.len();
    let environment = subsystem::environment_of(sites, retained);
    let ascending = choose|ascending: Seq<usize>| #[trigger]
        canonical_side(dimensions, retained, ascending, side);
    subsystem::lemma_retained(sites, retained, retained.len());
    assert(retained.take(retained.len() as int) =~= retained);
    subsystem::lemma_same_environment(sites, ascending, retained);
    assert(subsystem::distinct_sites(sites, ascending)) by {
        assert forall|i: int| 0 <= i < ascending.len() implies #[trigger] ascending[i] < sites by {
            assert(ascending.contains(ascending[i]));
            let at = retained.index_of(ascending[i]);
            assert(retained[at] < sites);
        }
    }
    subsystem::law_parts_make_the_whole(dimensions, sites, retained);
    subsystem::law_parts_make_the_whole(dimensions, sites, ascending);
    subsystem::lemma_parts_bounded(dimensions, retained, 0);
    let a = subsystem::product_over(dimensions, retained);
    let b = subsystem::product_over(dimensions, environment);
    let c = subsystem::product_over(dimensions, ascending);
    assert(a == c) by (nonlinear_arith)
        requires
            a * b == c * b,
            b > 0,
    ;
    let d = subsystem::product_over(dimensions, side);
    assert(d * d <= a * b) by (nonlinear_arith)
        requires
            d <= a,
            d <= b,
            d >= 0,
    ;
}

} // verus!

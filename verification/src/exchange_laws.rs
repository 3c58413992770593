//! Exchanges of modes: each exchange of two occupied modes of a group turns the sign.

use vstd::prelude::*;

use crate::exact::ExactScalar;
use crate::exchange::{all_crossings, crossings, crossings_of, sign_of};
use crate::linear::Scalar;
use crate::matrix_subspace::PhaseScalar;
use crate::partial_traces;
use crate::phases::{phased, phased_matrix};

verus! {

/// The places of modes after two of them are exchanged.
pub open spec fn exchanged(positions: Seq<usize>, a: int, b: int) -> Seq<usize> {
    positions.update(a, positions[b]).update(b, positions[a])
}

/// Whether two modes of one group are both occupied.
pub open spec fn both_occupied(
    occupied: Seq<bool>,
    table: Seq<Option<usize>>,
    group: usize,
    a: int,
    b: int,
) -> bool {
    table[a] == Some(group) && table[b] == Some(group) && occupied[a] && occupied[b]
}

proof fn lemma_exchanged_of(
    occupied: Seq<bool>,
    table: Seq<Option<usize>>,
    positions: Seq<usize>,
    group: usize,
    a: int,
    b: int,
    left: int,
    end: int,
)
    requires
        0 <= a < b < positions.len(),
        0 <= left,
        end <= positions.len(),
        positions.no_duplicates(),
        positions[b] == positions[a] + 1,
    ensures
        crossings_of(occupied, table, exchanged(positions, a, b), group, left, end)
            == crossings_of(occupied, table, positions, group, left, end) + if left == a && b < end
            && both_occupied(occupied, table, group, a, b) {
            1nat
        } else {
            0
        },
    decreases end - left,
{
    if end > left + 1 {
        lemma_exchanged_of(occupied, table, positions, group, a, b, left, end - 1);
        let right = end - 1;
        let after = exchanged(positions, a, b);
        assert(positions[left] != positions[right]);
        assert(left != a ==> positions[left] != positions[a]);
        assert(left != b ==> positions[left] != positions[b]);
        assert(right != a ==> positions[right] != positions[a]);
        assert(right != b ==> positions[right] != positions[b]);
        assert(after[left] == if left == a {
            positions[b]
        } else if left == b {
            positions[a]
        } else {
            positions[left]
        });
        assert(after[right] == if right == a {
            positions[b]
        } else if right == b {
            positions[a]
        } else {
            positions[right]
        });
    }
}

proof fn lemma_exchanged(
    occupied: Seq<bool>,
    table: Seq<Option<usize>>,
    positions: Seq<usize>,
    group: usize,
    a: int,
    b: int,
    count: nat,
)
    requires
        0 <= a < b < positions.len(),
        count <= positions.len(),
        occupied.len() == positions.len(),
        positions.no_duplicates(),
        positions[b] == positions[a] + 1,
    ensures
        crossings(occupied, table, exchanged(positions, a, b), group, count) == crossings(
            occupied,
            table,
            positions,
            group,
            count,
        ) + if a < count && both_occupied(occupied, table, group, a, b) {
            1nat
        } else {
            0
        },
    decreases count,
{
    if count > 0 {
        lemma_exchanged(occupied, table, positions, group, a, b, (count - 1) as nat);
        lemma_exchanged_of(
            occupied,
            table,
            positions,
            group,
            a,
            b,
            count - 1,
            occupied.len() as int,
        );
    }
}

/// Exchanging two neighbours in the new order turns the sign of a state exactly if both modes are
/// occupied and belong to one group of modes that do not commute.
pub proof fn law_each_exchange_turns_the_sign(
    occupied: Seq<bool>,
    table: Seq<Option<usize>>,
    positions: Seq<usize>,
    a: int,
    b: int,
    groups: nat,
)
    requires
        0 <= a < b < positions.len(),
        occupied.len() == positions.len(),
        groups <= usize::MAX,
        positions.no_duplicates(),
        positions[b] == positions[a] + 1,
    ensures
        all_crossings(occupied, table, exchanged(positions, a, b), groups) == all_crossings(
            occupied,
            table,
            positions,
            groups,
        ) + if table[a] is Some && table[a]->0 < groups && both_occupied(
            occupied,
            table,
            table[a]->0,
            a,
            b,
        ) {
            1nat
        } else {
            0
        },
        sign_of(all_crossings(occupied, table, exchanged(positions, a, b), groups))
            == if table[a] is Some && table[a]->0 < groups && both_occupied(
            occupied,
            table,
            table[a]->0,
            a,
            b,
        ) {
            -sign_of(all_crossings(occupied, table, positions, groups))
        } else {
            sign_of(all_crossings(occupied, table, positions, groups)) as int
        },
    decreases groups,
{
    if groups > 0 {
        law_each_exchange_turns_the_sign(
            occupied,
            table,
            positions,
            a,
            b,
            (groups - 1) as nat,
        );
        lemma_exchanged(
            occupied,
            table,
            positions,
            (groups - 1) as usize,
            a,
            b,
            occupied.len(),
        );
    }
}

proof fn lemma_in_order(
    occupied: Seq<bool>,
    table: Seq<Option<usize>>,
    positions: Seq<usize>,
    group: usize,
    count: nat,
)
    requires
        count <= positions.len(),
        occupied.len() == positions.len(),
        forall|i: int, j: int| 0 <= i < j < positions.len() ==> positions[i] < positions[j],
    ensures
        crossings(occupied, table, positions, group, count) == 0,
    decreases count,
{
    if count > 0 {
        lemma_in_order(occupied, table, positions, group, (count - 1) as nat);
        lemma_in_order_of(occupied, table, positions, group, count - 1, occupied.len() as int);
    }
}

proof fn lemma_in_order_of(
    occupied: Seq<bool>,
    table: Seq<Option<usize>>,
    positions: Seq<usize>,
    group: usize,
    left: int,
    end: int,
)
    requires
        0 <= left,
        end <= positions.len(),
        forall|i: int, j: int| 0 <= i < j < positions.len() ==> positions[i] < positions[j],
    ensures
        crossings_of(occupied, table, positions, group, left, end) == 0,
    decreases end - left,
{
    if end > left + 1 {
        lemma_in_order_of(occupied, table, positions, group, left, end - 1);
    }
}

/// Where the modes stay in order no sign changes.
pub proof fn law_kept_order_keeps_the_sign(
    occupied: Seq<bool>,
    table: Seq<Option<usize>>,
    positions: Seq<usize>,
    groups: nat,
)
    requires
        occupied.len() == positions.len(),
        groups <= usize::MAX,
        forall|i: int, j: int| 0 <= i < j < positions.len() ==> positions[i] < positions[j],
    ensures
        all_crossings(occupied, table, positions, groups) == 0,
        sign_of(all_crossings(occupied, table, positions, groups)) == 1,
    decreases groups,
{
    if groups > 0 {
        law_kept_order_keeps_the_sign(occupied, table, positions, (groups - 1) as nat);
        lemma_in_order(occupied, table, positions, (groups - 1) as usize, occupied.len());
    }
}

/// Phases act on a mixed state as on its states: the projector on a state, given phases, is the
/// projector on the state with these phases.
pub proof fn law_phases_act_on_both_sides<P, S: PhaseScalar<P> + ExactScalar>(
    state: Seq<S>,
    given: Seq<P>,
)
    requires
        given.len() == state.len(),
    ensures
        phased_matrix(partial_traces::outer_product(state), given)
            == partial_traces::outer_product(phased(state, given)),
{
    let n = state.len() as int;
    let left = phased_matrix(partial_traces::outer_product(state), given);
    let right = partial_traces::outer_product(phased(state, given));
    assert forall|place: int| 0 <= place < n * n implies #[trigger] left[place]
        == right[place] by {
        partial_traces::lemma_unpair(place, n, n);
        let (i, j) = (place / n, place % n);
        let (a, b) = (state[i], state[j].spec_conjugate());
        let f = S::spec_from_phase(given[i]);
        let g = S::spec_from_phase(given[j]).spec_conjugate();
        S::conjugation_is_linear(state[j], S::spec_from_phase(given[j]));
        // (a * b) * (f * g) == (a * f) * (b * g)
        S::times_associates(a, b, f.spec_times(g));
        S::times_associates(b, f, g);
        S::times_commutes(b, f);
        S::times_associates(f, b, g);
        S::times_associates(a, f, b.spec_times(g));
    }
    assert(left =~= right);
}

} // verus!

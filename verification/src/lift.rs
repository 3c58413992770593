//! What the columns of a lift hold: the members of the orbits of a reduced basis.

use vstd::prelude::*;

use crate::basis::Basis;
use crate::error::QmbedError;
use crate::general;
use crate::general::GeneralBasis;
use crate::general_sector;
use crate::ordered::Bounded;
use crate::projector;
use crate::projector::OrbitScalar;
use crate::reduction::Reduction;
use crate::symmetry::SymmetryMap;

verus! {

/// Whether a reduced basis replaces a state by its row of the given number.
pub open spec fn enters<R: Reduction>(reduced: R, state: R::State, column: int) -> bool {
    reduced.spec_reduction(state) matches Ok(Some(parts)) && parts.0
        == reduced.spec_states()[column]
}

/// States that a reduced basis replaces by one of its rows.
pub open spec fn members<R: Reduction>(reduced: R, column: int) -> Set<R::State> {
    Set::new(|state: R::State| enters(reduced, state, column))
}

/// Whether an entry of a column stands for a member of the orbit of its row, with the amplitude
/// of that member.
pub open spec fn stands_for<R: Reduction, S: OrbitScalar<R::Turned>>(
    reduced: R,
    parent: Seq<R::State>,
    column: int,
    entry: (usize, S),
) -> bool {
    &&& entry.0 < parent.len()
    &&& enters(reduced, parent[entry.0 as int], column)
    &&& reduced.spec_reduction(parent[entry.0 as int]) matches Ok(Some(parts)) && entry.1
        == S::spec_amplitude(parts.1, parts.2)
}

/// Whether a column has an entry in a row.
pub open spec fn has_row<S>(column: Seq<(usize, S)>, row: int) -> bool {
    exists|i: int| 0 <= i < column.len() && (#[trigger] column[i]).0 == row
}

/// Whether the rows of a column ascend, so that none has two entries.
pub open spec fn rows_ascend<S>(column: Seq<(usize, S)>) -> bool {
    forall|i: int, j: int|
        0 <= i < j < column.len() ==> (#[trigger] column[i]).0 < (#[trigger] column[j]).0
}

/// Whether a column holds exactly the members of an orbit among the first states of a parent
/// basis, each once.
pub open spec fn holds_orbit<R: Reduction, S: OrbitScalar<R::Turned>>(
    reduced: R,
    parent: Seq<R::State>,
    count: nat,
    column: int,
    entries: Seq<(usize, S)>,
) -> bool {
    &&& rows_ascend(entries)
    &&& forall|i: int|
        0 <= i < entries.len() ==> stands_for(reduced, parent, column, #[trigger] entries[i])
            && entries[i].0 < count
    &&& forall|row: int|
        0 <= row < count ==> (#[trigger] has_row(entries, row) <==> enters(
            reduced,
            parent[row],
            column,
        ))
}

proof fn lemma_lifted<R: Reduction, S: OrbitScalar<R::Turned>>(
    reduced: R,
    parent: Seq<R::State>,
    count: nat,
)
    requires
        count <= parent.len() <= usize::MAX,
        reduced.spec_states().no_duplicates(),
        projector::lifted_columns::<R, S>(reduced, parent, count) is Ok,
    ensures
        ({
            let columns = projector::lifted_columns::<R, S>(reduced, parent, count)->Ok_0;
            &&& columns.len() == reduced.spec_states().len()
            &&& forall|c: int|
                0 <= c < columns.len() ==> holds_orbit::<R, S>(
                    reduced,
                    parent,
                    count,
                    c,
                    #[trigger] columns[c],
                )
        }),
    decreases count,
{
    let states = reduced.spec_states();
    let columns = projector::lifted_columns::<R, S>(reduced, parent, count)->Ok_0;
    if count > 0 {
        let before = (count - 1) as nat;
        let earlier = projector::lifted_columns::<R, S>(reduced, parent, before)->Ok_0;
        lemma_lifted::<R, S>(reduced, parent, before);
        let state = parent[count - 1];
        assert forall|c: int| 0 <= c < columns.len() implies holds_orbit::<R, S>(
            reduced,
            parent,
            count,
            c,
            #[trigger] columns[c],
        ) by {
            let old = earlier[c];
            let new = columns[c];
            assert(holds_orbit::<R, S>(reduced, parent, before, c, old));
            match reduced.spec_reduction(state) {
                Ok(Some(parts)) => {
                    let place = states.index_of(parts.0);
                    assert(states.contains(parts.0));
                    assert(states[place] == parts.0);
                    let entry = ((count - 1) as usize, S::spec_amplitude(parts.1, parts.2));
                    if c == place {
                        assert(new == old.push(entry));
                        assert(enters(reduced, state, c));
                        assert forall|i: int| 0 <= i < new.len() implies stands_for(
                            reduced,
                            parent,
                            c,
                            #[trigger] new[i],
                        ) && new[i].0 < count by {
                            if i < old.len() {
                                assert(new[i] == old[i]);
                            }
                        }
                        assert forall|row: int| 0 <= row < count implies (#[trigger] has_row(
                            new,
                            row,
                        ) <==> enters(reduced, parent[row], c)) by {
                            if row == count - 1 {
                                assert(new[old.len() as int].0 == row);
                            } else {
                                lemma_same_rows(old, new, row);
                            }
                        }
                    } else {
                        assert(new == old);
                        assert(states[c] != states[place]);
                        lemma_idle(reduced, parent, before, c, old);
                    }
                },
                _ => {
                    assert(new == old);
                    lemma_idle(reduced, parent, before, c, old);
                },
            }
        }
    } else {
        assert forall|c: int| 0 <= c < columns.len() implies holds_orbit::<R, S>(
            reduced,
            parent,
            count,
            c,
            #[trigger] columns[c],
        ) by {
            assert(columns[c] =~= Seq::empty());
        }
    }
}

/// A state that does not enter a column leaves it as it is.
proof fn lemma_idle<R: Reduction, S: OrbitScalar<R::Turned>>(
    reduced: R,
    parent: Seq<R::State>,
    before: nat,
    column: int,
    entries: Seq<(usize, S)>,
)
    requires
        before < parent.len(),
        holds_orbit::<R, S>(reduced, parent, before, column, entries),
        !enters(reduced, parent[before as int], column),
    ensures
        holds_orbit::<R, S>(reduced, parent, before + 1, column, entries),
{
    assert forall|row: int| 0 <= row < before + 1 implies (#[trigger] has_row(entries, row)
        <==> enters(reduced, parent[row], column)) by {
        if row == before && has_row(entries, row) {
            let i = choose|i: int| 0 <= i < entries.len() && (#[trigger] entries[i]).0 == row;
            assert(stands_for(reduced, parent, column, entries[i]));
        }
    }
    assert forall|i: int| 0 <= i < entries.len() implies stands_for(
        reduced,
        parent,
        column,
        #[trigger] entries[i],
    ) && entries[i].0 < before + 1 by {}
}

proof fn lemma_same_rows<S>(old: Seq<(usize, S)>, new: Seq<(usize, S)>, row: int)
    requires
        new.len() == old.len() + 1,
        forall|i: int| 0 <= i < old.len() ==> #[trigger] new[i] == old[i],
        new[old.len() as int].0 != row,
    ensures
        has_row(new, row) == has_row(old, row),
{
    if has_row(old, row) {
        let i = choose|i: int| 0 <= i < old.len() && (#[trigger] old[i]).0 == row;
        assert(new[i].0 == row);
    }
    if has_row(new, row) {
        let i = choose|i: int| 0 <= i < new.len() && (#[trigger] new[i]).0 == row;
        assert(old[i].0 == row);
    }
}

/// Each column of the lift of a reduced basis holds exactly the members of one orbit that the
/// parent basis lists, one entry each with the amplitude of the member. Two columns share no row.
/// A column whose orbit lies in the parent basis has as many entries as the orbit has members.
pub proof fn law_lift_columns_are_orbits<R: Reduction, S: OrbitScalar<R::Turned>>(
    reduced: R,
    parent: Seq<R::State>,
    columns: Seq<Seq<(usize, S)>>,
)
    requires
        reduced.wf(),
        reduced.faithful(),
        parent.len() <= usize::MAX,
        parent.no_duplicates(),
        projector::lifted_columns::<R, S>(reduced, parent, parent.len()) == Ok::<
            Seq<Seq<(usize, S)>>,
            QmbedError,
        >(columns),
    ensures
        columns.len() == reduced.spec_states().len(),
        forall|c: int|
            0 <= c < columns.len() ==> holds_orbit::<R, S>(
                reduced,
                parent,
                parent.len(),
                c,
                #[trigger] columns[c],
            ),
        forall|c: int, d: int, row: int|
            0 <= c < columns.len() && 0 <= d < columns.len() && c != d && 0 <= row < parent.len()
                && #[trigger] has_row(columns[c], row) ==> !#[trigger] has_row(columns[d], row),
        forall|c: int|
            0 <= c < columns.len() && members(reduced, c).subset_of(parent.to_set())
                ==> #[trigger] members(reduced, c).finite() && members(reduced, c).len()
                == columns[c].len(),
{
    reduced.states_distinct();
    lemma_lifted::<R, S>(reduced, parent, parent.len());
    let states = reduced.spec_states();
    assert forall|c: int, d: int, row: int|
        0 <= c < columns.len() && 0 <= d < columns.len() && c != d && 0 <= row < parent.len()
            && #[trigger] has_row(columns[c], row) implies !#[trigger] has_row(
        columns[d],
        row,
    ) by {
        assert(holds_orbit::<R, S>(reduced, parent, parent.len(), c, columns[c]));
        assert(holds_orbit::<R, S>(reduced, parent, parent.len(), d, columns[d]));
        assert(states[c] != states[d]);
    }
    assert forall|c: int|
        0 <= c < columns.len() && members(reduced, c).subset_of(parent.to_set()) implies
        #[trigger] members(reduced, c).finite() && members(reduced, c).len()
        == columns[c].len() by {
        assert(holds_orbit::<R, S>(reduced, parent, parent.len(), c, columns[c]));
        lemma_counts::<R, S>(reduced, parent, c, columns[c]);
    }
}

proof fn lemma_counts<R: Reduction, S: OrbitScalar<R::Turned>>(
    reduced: R,
    parent: Seq<R::State>,
    column: int,
    entries: Seq<(usize, S)>,
)
    requires
        parent.no_duplicates(),
        holds_orbit::<R, S>(reduced, parent, parent.len(), column, entries),
        members(reduced, column).subset_of(parent.to_set()),
    ensures
        members(reduced, column).finite(),
        members(reduced, column).len() == entries.len(),
{
    let listed = Seq::new(entries.len(), |i: int| parent[entries[i].0 as int]);
    assert(listed.no_duplicates()) by {
        assert forall|i: int, j: int|
            0 <= i < listed.len() && 0 <= j < listed.len() && i != j implies listed[i]
            != listed[j] by {
            assert(stands_for(reduced, parent, column, entries[i]));
            assert(stands_for(reduced, parent, column, entries[j]));
            if i < j {
                assert(entries[i].0 < entries[j].0);
            } else {
                assert(entries[j].0 < entries[i].0);
            }
        }
    }
    assert forall|state: R::State| members(reduced, column).contains(state)
        <==> listed.to_set().contains(state) by {
        if members(reduced, column).contains(state) {
            assert(parent.to_set().contains(state));
            let row = parent.index_of(state);
            assert(has_row(entries, row));
            let i = choose|i: int| 0 <= i < entries.len() && (#[trigger] entries[i]).0 == row;
            assert(listed[i] == state);
        }
        if listed.to_set().contains(state) {
            let i = listed.index_of(state);
            assert(stands_for(reduced, parent, column, entries[i]));
        }
    }
    assert(members(reduced, column) =~= listed.to_set());
    listed.unique_seq_to_set();
}

/// In the lift of a symmetry sector into a parent basis that holds its orbits, the number of
/// entries of each column is the size of the orbit.
pub proof fn law_lift_has_orbit_sizes<Parent: Basis, M, S: OrbitScalar<M::Factor>>(
    reduced: GeneralBasis<Parent, M>,
    parent: Seq<Parent::State>,
    columns: Seq<Seq<(usize, S)>>,
    column: int,
) where Parent::State: Bounded, M: SymmetryMap<Parent::State>
    requires
        reduced.valid(),
        reduced.faithful(),
        reduced.spec_generators().len() > 0,
        parent.len() <= usize::MAX,
        parent.no_duplicates(),
        projector::lifted_columns::<GeneralBasis<Parent, M>, S>(reduced, parent, parent.len())
            == Ok::<Seq<Seq<(usize, S)>>, QmbedError>(columns),
        0 <= column < columns.len(),
        general_sector::states_of(reduced, reduced.spec_rows()[column]).subset_of(parent.to_set()),
    ensures
        members(reduced, column) == general_sector::states_of(
            reduced,
            reduced.spec_rows()[column],
        ),
        columns[column].len() == reduced.spec_orbit_lengths()[column],
{
    law_lift_columns_are_orbits::<GeneralBasis<Parent, M>, S>(reduced, parent, columns);
    general_sector::law_rows_are_the_sector(reduced);
    let whole = general_sector::states_of(reduced, reduced.spec_rows()[column]);
    assert forall|state: Parent::State| #[trigger] whole.contains(state) <==> members(
        reduced,
        column,
    ).contains(state) by {
        if whole.contains(state) {
            let image = reduced.spec_image(state)->0;
            general_sector::lemma_image_size(reduced, state);
            assert(image.orbit_size > 0);
        }
    }
    assert(whole =~= members(reduced, column));
}

} // verus!

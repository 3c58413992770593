//! What a reduced basis holds, said of orbits rather than of the way they are found.

use vstd::prelude::*;

use crate::amplitudes::Turn;
use crate::basis::Basis;
use crate::general;
use crate::general::{GeneralBasis, GeneralSymmetryImage, LabelEntry, Reduction, RowEntry};
use crate::ordered;
use crate::ordered::{Bounded, Ranked};
use crate::symmetry;
use crate::symmetry::{PhaseFactor, RepresentativeOrdering, SymmetryGenerator, SymmetryMap};

verus! {

/// Whether generators have numbers below their count.
pub open spec fn spells(word: Seq<nat>, count: nat) -> bool {
    forall|i: int| 0 <= i < word.len() ==> #[trigger] word[i] < count
}

/// Whether a word of generators leads from one state to another.
pub open spec fn word_leads<State, M: SymmetryMap<State>>(
    generators: Seq<SymmetryGenerator<M>>,
    from: State,
    word: Seq<nat>,
    to: State,
) -> bool {
    &&& spells(word, generators.len())
    &&& symmetry::follow(generators, from, word) matches Ok((reached, _)) && reached == to
}

/// Whether a state lies in the orbit of another: some word of generators leads to it.
pub open spec fn in_orbit<State, M: SymmetryMap<State>>(
    generators: Seq<SymmetryGenerator<M>>,
    from: State,
    to: State,
) -> bool {
    exists|word: Seq<nat>| #[trigger] word_leads(generators, from, word, to)
}

/// The orbit of a state.
pub open spec fn orbit_of<State, M: SymmetryMap<State>>(
    generators: Seq<SymmetryGenerator<M>>,
    seed: State,
) -> Set<State> {
    Set::new(|state: State| in_orbit(generators, seed, state))
}

/// Whether a row of the parent basis is the first of its orbit, and the sector is compatible with
/// that orbit.
pub open spec fn opens_orbit<State: Bounded, M: SymmetryMap<State>>(
    parent: Seq<State>,
    generators: Seq<SymmetryGenerator<M>>,
    row: int,
) -> bool {
    &&& 0 <= row < parent.len()
    &&& forall|earlier: int|
        0 <= earlier < row ==> !in_orbit(generators, #[trigger] parent[earlier], parent[row])
    &&& symmetry::orbit_trace(generators, parent[row]) matches Ok(known) && known.compatible
}

/// Whether a state is the least, or the greatest, of an orbit.
pub open spec fn extreme_of<State: Bounded, M: SymmetryMap<State>>(
    generators: Seq<SymmetryGenerator<M>>,
    seed: State,
    ordering: RepresentativeOrdering,
    state: State,
) -> bool {
    &&& in_orbit(generators, seed, state)
    &&& forall|other: State| #[trigger]
        in_orbit(generators, seed, other) ==> match ordering {
            RepresentativeOrdering::Minimum => state.rank() <= other.rank(),
            RepresentativeOrdering::Maximum => state.rank() >= other.rank(),
        }
}

/// Whether a representative and a size describe the orbit that a parent row opens.
pub open spec fn describes_orbit<State: Bounded, M: SymmetryMap<State>>(
    parent: Seq<State>,
    generators: Seq<SymmetryGenerator<M>>,
    ordering: RepresentativeOrdering,
    row: int,
    representative: State,
    size: usize,
) -> bool {
    &&& opens_orbit(parent, generators, row)
    &&& extreme_of(generators, parent[row], ordering, representative)
    &&& orbit_of(generators, parent[row]).finite()
    &&& orbit_of(generators, parent[row]).len() == size
}

/// Phase of a state of an orbit relative to its representative.
pub open spec fn phase_in_orbit<State: Bounded, M: SymmetryMap<State>>(
    generators: Seq<SymmetryGenerator<M>>,
    seed: State,
    ordering: RepresentativeOrdering,
    state: State,
) -> Option<M::Factor> {
    let known = symmetry::orbit_trace(generators, seed)->Ok_0;
    match <M::Factor as PhaseFactor>::spec_relative(
        known.coefficients,
        symmetry::extreme_place(known.states, ordering),
    ) {
        Some(phases) => Some(phases[known.states.index_of(state)]),
        None => None,
    }
}

/// Whether an image is that of a state of the orbit that a parent row opens.
pub open spec fn images_orbit<State: Bounded, M: SymmetryMap<State>>(
    parent: Seq<State>,
    generators: Seq<SymmetryGenerator<M>>,
    ordering: RepresentativeOrdering,
    row: int,
    state: State,
    image: GeneralSymmetryImage<State, M::Factor>,
) -> bool {
    &&& describes_orbit(
        parent,
        generators,
        ordering,
        row,
        image.representative,
        image.orbit_size,
    )
    &&& in_orbit(generators, parent[row], state)
    &&& phase_in_orbit(generators, parent[row], ordering, state) == Some(image.phase)
}

proof fn lemma_step_inside<State: Bounded, M: SymmetryMap<State>>(
    generators: Seq<SymmetryGenerator<M>>,
    seed: State,
    word: Seq<nat>,
)
    requires
        symmetry::orbit_trace(generators, seed) is Ok,
        spells(word, generators.len()),
    ensures
        symmetry::follow(generators, seed, word) matches Ok((reached, _))
            && symmetry::orbit_trace(generators, seed)->Ok_0.states.contains(reached),
    decreases word.len(),
{
    let known = symmetry::orbit_trace(generators, seed)->Ok_0;
    symmetry::lemma_trace_sound(generators, seed);
    if word.len() == 0 {
        assert(known.states[0] == seed);
    } else {
        let before = word.drop_last();
        assert forall|i: int| 0 <= i < before.len() implies #[trigger] before[i]
            < generators.len() by {
            assert(before[i] == word[i]);
        }
        lemma_step_inside(generators, seed, before);
        let reached = (symmetry::follow(generators, seed, before)->Ok_0).0;
        let place = known.states.index_of(reached);
        let g = word[word.len() - 1] as int;
        symmetry::law_orbit_closed(generators, seed, place, g);
        assert(symmetry::leads_inside(generators, known, place, g));
    }
}

proof fn lemma_word_spells<State: Bounded, M: SymmetryMap<State>>(
    generators: Seq<SymmetryGenerator<M>>,
    seed: State,
    place: nat,
)
    requires
        symmetry::orbit_trace(generators, seed) is Ok,
        place < symmetry::orbit_trace(generators, seed)->Ok_0.states.len(),
    ensures
        spells(
            symmetry::word_to(symmetry::orbit_trace(generators, seed)->Ok_0.sources, place),
            generators.len(),
        ),
    decreases place,
{
    let known = symmetry::orbit_trace(generators, seed)->Ok_0;
    symmetry::lemma_trace_sound(generators, seed);
    if place > 0 {
        assert(symmetry::explains(generators, known, place as int));
        lemma_word_spells(generators, seed, known.sources[place as int].0);
    }
}

/// The traced states are those of the orbit.
pub proof fn lemma_trace_is_orbit<State: Bounded, M: SymmetryMap<State>>(
    generators: Seq<SymmetryGenerator<M>>,
    seed: State,
)
    requires
        symmetry::orbit_trace(generators, seed) is Ok,
    ensures
        forall|state: State| #[trigger]
            in_orbit(generators, seed, state) <==> symmetry::orbit_trace(
                generators,
                seed,
            )->Ok_0.states.contains(state),
        orbit_of(generators, seed) == symmetry::orbit_trace(
            generators,
            seed,
        )->Ok_0.states.to_set(),
        orbit_of(generators, seed).finite(),
        orbit_of(generators, seed).len() == symmetry::orbit_trace(
            generators,
            seed,
        )->Ok_0.states.len(),
{
    let known = symmetry::orbit_trace(generators, seed)->Ok_0;
    symmetry::lemma_trace_sound(generators, seed);
    assert forall|state: State| #[trigger]
        in_orbit(generators, seed, state) <==> known.states.contains(state) by {
        if in_orbit(generators, seed, state) {
            let word = choose|word: Seq<nat>| #[trigger] word_leads(generators, seed, word, state);
            lemma_step_inside(generators, seed, word);
        }
        if known.states.contains(state) {
            let place = known.states.index_of(state) as nat;
            symmetry::law_word_leads(generators, seed, place);
            lemma_word_spells(generators, seed, place);
            assert(word_leads(
                generators,
                seed,
                symmetry::word_to(known.sources, place),
                state,
            ));
        }
    }
    assert(orbit_of(generators, seed) =~= known.states.to_set());
    known.states.unique_seq_to_set();
}

/// One word after another leads where the second leads from the end of the first.
proof fn lemma_words_join<State, M: SymmetryMap<State>>(
    generators: Seq<SymmetryGenerator<M>>,
    from: State,
    first: Seq<nat>,
    middle: State,
    second: Seq<nat>,
    to: State,
)
    requires
        word_leads(generators, from, first, middle),
        word_leads(generators, middle, second, to),
    ensures
        word_leads(generators, from, first + second, to),
    decreases second.len(),
{
    let joined = first + second;
    assert forall|i: int| 0 <= i < joined.len() implies #[trigger] joined[i]
        < generators.len() by {
        if i < first.len() {
            assert(joined[i] == first[i]);
        } else {
            assert(joined[i] == second[i - first.len()]);
        }
    }
    if second.len() == 0 {
        assert(joined =~= first);
    } else {
        let shorter = second.drop_last();
        let reached = (symmetry::follow(generators, middle, shorter)->Ok_0).0;
        assert forall|i: int| 0 <= i < shorter.len() implies #[trigger] shorter[i]
            < generators.len() by {
            assert(shorter[i] == second[i]);
        }
        assert(word_leads(generators, middle, shorter, reached));
        lemma_words_join(generators, from, first, middle, shorter, reached);
        assert(joined.drop_last() =~= first + shorter);
        assert(joined.last() == second.last());
    }
}

/// An orbit holds the orbits of its states.
pub proof fn lemma_orbit_of_member<State, M: SymmetryMap<State>>(
    generators: Seq<SymmetryGenerator<M>>,
    from: State,
    middle: State,
    to: State,
)
    requires
        in_orbit(generators, from, middle),
        in_orbit(generators, middle, to),
    ensures
        in_orbit(generators, from, to),
{
    let first = choose|word: Seq<nat>| #[trigger] word_leads(generators, from, word, middle);
    let second = choose|word: Seq<nat>| #[trigger] word_leads(generators, middle, word, to);
    lemma_words_join(generators, from, first, middle, second, to);
}

/// Whether a state lies in the orbit of one of the first parent rows.
pub open spec fn met_from<State, M: SymmetryMap<State>>(
    parent: Seq<State>,
    generators: Seq<SymmetryGenerator<M>>,
    count: int,
    state: State,
) -> bool {
    exists|row: int| 0 <= row < count && in_orbit(generators, #[trigger] parent[row], state)
}

/// Whether a representative and a size describe the orbit that one of the first rows opens.
pub open spec fn described<State: Bounded, M: SymmetryMap<State>>(
    parent: Seq<State>,
    generators: Seq<SymmetryGenerator<M>>,
    ordering: RepresentativeOrdering,
    count: int,
    representative: State,
    size: usize,
) -> bool {
    exists|row: int|
        row < count && #[trigger] describes_orbit(
            parent,
            generators,
            ordering,
            row,
            representative,
            size,
        )
}

/// Whether some representative stands for the orbit that a row opens.
pub open spec fn represented<State: Bounded, M: SymmetryMap<State>>(
    parent: Seq<State>,
    generators: Seq<SymmetryGenerator<M>>,
    ordering: RepresentativeOrdering,
    row: int,
    representatives: Seq<(State, usize)>,
) -> bool {
    exists|k: int|
        0 <= k < representatives.len() && describes_orbit(
            parent,
            generators,
            ordering,
            row,
            (#[trigger] representatives[k]).0,
            representatives[k].1,
        )
}

/// Whether an image is that of a state of an orbit that one of the first rows opens.
pub open spec fn imaged<State: Bounded, M: SymmetryMap<State>>(
    parent: Seq<State>,
    generators: Seq<SymmetryGenerator<M>>,
    ordering: RepresentativeOrdering,
    count: int,
    state: State,
    image: GeneralSymmetryImage<State, M::Factor>,
) -> bool {
    exists|row: int|
        row < count && #[trigger] images_orbit(parent, generators, ordering, row, state, image)
}

/// Whether what was reduced from the first parent rows is what their orbits say.
pub open spec fn reduction_fits<State: Bounded, M: SymmetryMap<State>>(
    parent: Seq<State>,
    generators: Seq<SymmetryGenerator<M>>,
    ordering: RepresentativeOrdering,
    count: int,
    so_far: Reduction<State, M::Factor>,
) -> bool {
    &&& forall|state: State| #[trigger]
        so_far.visited.contains(state) <==> met_from(parent, generators, count, state)
    &&& forall|k: int|
        0 <= k < so_far.representatives.len() ==> described(
            parent,
            generators,
            ordering,
            count,
            (#[trigger] so_far.representatives[k]).0,
            so_far.representatives[k].1,
        )
    &&& forall|row: int|
        row < count && #[trigger] opens_orbit(parent, generators, row) ==> represented(
            parent,
            generators,
            ordering,
            row,
            so_far.representatives,
        )
    &&& forall|state: State| #[trigger]
        so_far.lookup.dom().contains(state) ==> imaged(
            parent,
            generators,
            ordering,
            count,
            state,
            so_far.lookup[state],
        )
    &&& forall|row: int, state: State|
        row < count && #[trigger] opens_orbit(parent, generators, row) && #[trigger] in_orbit(
            generators,
            parent[row],
            state,
        ) ==> so_far.lookup.dom().contains(state)
}

/// What held of fewer rows holds of more.
proof fn lemma_more_rows<State: Bounded, M: SymmetryMap<State>>(
    parent: Seq<State>,
    generators: Seq<SymmetryGenerator<M>>,
    ordering: RepresentativeOrdering,
    count: int,
)
    ensures
        forall|state: State|
            met_from(parent, generators, count, state) ==> #[trigger] met_from(
                parent,
                generators,
                count + 1,
                state,
            ),
        forall|representative: State, size: usize|
            described(parent, generators, ordering, count, representative, size)
                ==> #[trigger] described(
                parent,
                generators,
                ordering,
                count + 1,
                representative,
                size,
            ),
        forall|state: State, image: GeneralSymmetryImage<State, M::Factor>|
            imaged(parent, generators, ordering, count, state, image) ==> #[trigger] imaged(
                parent,
                generators,
                ordering,
                count + 1,
                state,
                image,
            ),
{
    assert forall|state: State|
        met_from(parent, generators, count, state) implies #[trigger] met_from(
        parent,
        generators,
        count + 1,
        state,
    ) by {
        let row = choose|row: int|
            0 <= row < count && in_orbit(generators, #[trigger] parent[row], state);
        assert(in_orbit(generators, parent[row], state));
    }
    assert forall|representative: State, size: usize|
        described(parent, generators, ordering, count, representative, size) implies #[trigger] described(
        parent,
        generators,
        ordering,
        count + 1,
        representative,
        size,
    ) by {
        let row = choose|row: int|
            row < count && #[trigger] describes_orbit(
                parent,
                generators,
                ordering,
                row,
                representative,
                size,
            );
        assert(row < count + 1);
    }
    assert forall|state: State, image: GeneralSymmetryImage<State, M::Factor>|
        imaged(parent, generators, ordering, count, state, image) implies #[trigger] imaged(
        parent,
        generators,
        ordering,
        count + 1,
        state,
        image,
    ) by {
        let row = choose|row: int|
            row < count && #[trigger] images_orbit(parent, generators, ordering, row, state, image);
        assert(row < count + 1);
    }
}

/// A parent row that an earlier orbit holds changes nothing.
proof fn lemma_met_seed_fits<State: Bounded, M: SymmetryMap<State>>(
    parent: Seq<State>,
    generators: Seq<SymmetryGenerator<M>>,
    ordering: RepresentativeOrdering,
    last: int,
    so_far: Reduction<State, M::Factor>,
)
    requires
        0 <= last < parent.len(),
        reduction_fits(parent, generators, ordering, last, so_far),
        so_far.visited.contains(parent[last]),
    ensures
        reduction_fits(parent, generators, ordering, last + 1, so_far),
{
    let seed = parent[last];
    lemma_more_rows(parent, generators, ordering, last);
    assert(met_from(parent, generators, last, seed));
    let first = choose|row: int|
        0 <= row < last && in_orbit(generators, #[trigger] parent[row], seed);
    assert(!opens_orbit(parent, generators, last)) by {
        assert(in_orbit(generators, parent[first], parent[last]));
    }
    assert forall|state: State| #[trigger] so_far.visited.contains(state) <==> met_from(
        parent,
        generators,
        last + 1,
        state,
    ) by {
        if met_from(parent, generators, last + 1, state) {
            let row = choose|row: int|
                0 <= row < last + 1 && in_orbit(generators, #[trigger] parent[row], state);
            if row == last {
                lemma_orbit_of_member(generators, parent[first], seed, state);
                assert(in_orbit(generators, parent[first], state));
            } else {
                assert(in_orbit(generators, parent[row], state));
            }
            assert(met_from(parent, generators, last, state));
        }
    }
}

/// The place, state and size that stand for the orbit of a fresh seed.
proof fn lemma_fresh_orbit<State: Bounded, M: SymmetryMap<State>>(
    parent: Seq<State>,
    generators: Seq<SymmetryGenerator<M>>,
    ordering: RepresentativeOrdering,
    last: int,
)
    requires
        0 <= last < parent.len(),
        !met_from(parent, generators, last, parent[last]),
        symmetry::orbit_trace(generators, parent[last]) is Ok,
        symmetry::orbit_trace(generators, parent[last])->Ok_0.states.len() <= usize::MAX,
    ensures
        ({
            let known = symmetry::orbit_trace(generators, parent[last])->Ok_0;
            &&& opens_orbit(parent, generators, last) == known.compatible
            &&& known.compatible ==> describes_orbit(
                parent,
                generators,
                ordering,
                last,
                known.states[symmetry::extreme_place(known.states, ordering)],
                known.states.len() as usize,
            )
        }),
{
    let seed = parent[last];
    let known = symmetry::orbit_trace(generators, seed)->Ok_0;
    lemma_trace_is_orbit(generators, seed);
    symmetry::lemma_trace_sound(generators, seed);
    general::lemma_has_extreme(known.states, ordering);
    let place = symmetry::extreme_place(known.states, ordering);
    let chosen = known.states[place];
    assert forall|earlier: int| 0 <= earlier < last implies !in_orbit(
        generators,
        #[trigger] parent[earlier],
        parent[last],
    ) by {
        if in_orbit(generators, parent[earlier], parent[last]) {
            assert(met_from(parent, generators, last, seed));
        }
    }
    assert(known.states.contains(chosen));
    assert forall|other: State| #[trigger] in_orbit(generators, seed, other) implies match ordering {
        RepresentativeOrdering::Minimum => chosen.rank() <= other.rank(),
        RepresentativeOrdering::Maximum => chosen.rank() >= other.rank(),
    } by {
        let at = known.states.index_of(other);
        assert(known.states[at] == other);
    }
    assert(extreme_of(generators, seed, ordering, chosen));
}

/// The orbit of a fresh seed shares no state with an orbit opened before.
proof fn lemma_fresh_orbit_apart<State: Bounded, M: SymmetryMap<State>>(
    parent: Seq<State>,
    generators: Seq<SymmetryGenerator<M>>,
    last: int,
    row: int,
    state: State,
)
    requires
        general::all_injective(generators),
        0 <= row < last < parent.len(),
        !met_from(parent, generators, last, parent[last]),
        symmetry::orbit_trace(generators, parent[last]) is Ok,
        opens_orbit(parent, generators, row),
        in_orbit(generators, parent[row], state),
    ensures
        !in_orbit(generators, parent[last], state),
{
    let seed = parent[last];
    lemma_trace_is_orbit(generators, seed);
    lemma_trace_is_orbit(generators, parent[row]);
    if in_orbit(generators, seed, state) {
        general::law_orbits_do_not_overlap(generators, parent[row], seed, state);
        assert(in_orbit(generators, parent[row], seed));
        assert(met_from(parent, generators, last, seed));
    }
}

/// The orbit of a parent row that no earlier orbit holds is added as it is.
proof fn lemma_fresh_seed_fits<State: Bounded, M: SymmetryMap<State>>(
    parent: Seq<State>,
    generators: Seq<SymmetryGenerator<M>>,
    inside: bool,
    ordering: RepresentativeOrdering,
    last: int,
    before: Reduction<State, M::Factor>,
    after: Reduction<State, M::Factor>,
)
    requires
        general::all_injective(generators),
        0 <= last < parent.len(),
        reduction_fits(parent, generators, ordering, last, before),
        !before.visited.contains(parent[last]),
        general::reduce_seed(before, parent[last], parent, generators, inside, ordering) == Ok::<
            Reduction<State, M::Factor>,
            crate::error::QmbedError,
        >(after),
        symmetry::orbit_trace(generators, parent[last]) matches Ok(known) && known.states.len()
            <= usize::MAX,
    ensures
        reduction_fits(parent, generators, ordering, last + 1, after),
{
    let seed = parent[last];
    let known = symmetry::orbit_trace(generators, seed)->Ok_0;
    let place = symmetry::extreme_place(known.states, ordering);
    let chosen = known.states[place];
    lemma_more_rows(parent, generators, ordering, last);
    lemma_trace_is_orbit(generators, seed);
    lemma_fresh_orbit(parent, generators, ordering, last);
    assert forall|state: State| #[trigger] after.visited.contains(state) <==> met_from(
        parent,
        generators,
        last + 1,
        state,
    ) by {
        if after.visited.contains(state) && !before.visited.contains(state) {
            assert(in_orbit(generators, parent[last], state));
        }
        if met_from(parent, generators, last + 1, state) {
            let row = choose|row: int|
                0 <= row < last + 1 && in_orbit(generators, #[trigger] parent[row], state);
            if row < last {
                assert(met_from(parent, generators, last, state));
            }
        }
    }
    let n = before.representatives.len();
    assert forall|k: int| 0 <= k < after.representatives.len() implies described(
        parent,
        generators,
        ordering,
        last + 1,
        (#[trigger] after.representatives[k]).0,
        after.representatives[k].1,
    ) by {
        if k < n {
            assert(after.representatives[k] == before.representatives[k]);
        } else {
            assert(describes_orbit(
                parent,
                generators,
                ordering,
                last,
                after.representatives[k].0,
                after.representatives[k].1,
            ));
        }
    }
    assert forall|row: int|
        row < last + 1 && #[trigger] opens_orbit(parent, generators, row) implies represented(
        parent,
        generators,
        ordering,
        row,
        after.representatives,
    ) by {
        if row < last {
            assert(represented(parent, generators, ordering, row, before.representatives));
            let k = choose|k: int|
                0 <= k < n && describes_orbit(
                    parent,
                    generators,
                    ordering,
                    row,
                    (#[trigger] before.representatives[k]).0,
                    before.representatives[k].1,
                );
            assert(after.representatives[k] == before.representatives[k]);
        } else {
            assert(after.representatives[n as int] == (chosen, known.states.len() as usize));
        }
    }
    assert forall|state: State| #[trigger] after.lookup.dom().contains(state) implies imaged(
        parent,
        generators,
        ordering,
        last + 1,
        state,
        after.lookup[state],
    ) by {
        if known.compatible && known.states.contains(state) {
            assert(in_orbit(generators, seed, state));
            assert(images_orbit(
                parent,
                generators,
                ordering,
                last,
                state,
                after.lookup[state],
            ));
        } else {
            assert(before.lookup.dom().contains(state));
            assert(after.lookup[state] == before.lookup[state]);
        }
    }
    assert forall|row: int, state: State|
        row < last + 1 && #[trigger] opens_orbit(parent, generators, row) && #[trigger] in_orbit(
            generators,
            parent[row],
            state,
        ) implies after.lookup.dom().contains(state) by {
        if row == last {
            assert(known.states.contains(state));
        } else {
            assert(before.lookup.dom().contains(state));
        }
    }
}

proof fn lemma_reduction_fits<State: Bounded, M: SymmetryMap<State>>(
    parent: Seq<State>,
    generators: Seq<SymmetryGenerator<M>>,
    inside: bool,
    ordering: RepresentativeOrdering,
    count: nat,
)
    requires
        general::all_injective(generators),
        count <= parent.len(),
        general::reduced(parent, generators, inside, ordering, count) is Ok,
        general::orbits_counted(parent, generators, inside, ordering, count),
    ensures
        reduction_fits(
            parent,
            generators,
            ordering,
            count as int,
            general::reduced(parent, generators, inside, ordering, count)->Ok_0,
        ),
    decreases count,
{
    if count > 0 {
        let last = count - 1;
        lemma_reduction_fits(parent, generators, inside, ordering, last as nat);
        let before = general::reduced(parent, generators, inside, ordering, last as nat)->Ok_0;
        let after = general::reduced(parent, generators, inside, ordering, count)->Ok_0;
        if before.visited.contains(parent[last]) {
            lemma_met_seed_fits(parent, generators, ordering, last, before);
        } else {
            lemma_fresh_seed_fits(parent, generators, inside, ordering, last, before, after);
        }
    }
}

/// States that a reduced basis replaces by a representative.
pub open spec fn states_of<Parent: Basis, M>(
    reduced: GeneralBasis<Parent, M>,
    representative: Parent::State,
) -> Set<Parent::State> where Parent::State: Bounded, M: SymmetryMap<Parent::State> {
    Set::new(
        |state: Parent::State|
            reduced.spec_image(state) matches Some(image) && image.representative
                == representative,
    )
}

/// Whether rows follow their parent basis, or their labels where some are not in it.
pub open spec fn rows_in_order<State: Bounded>(parent: Seq<State>, rows: Seq<State>) -> bool {
    if general::all_among(rows, parent) {
        parent.no_duplicates() ==> forall|i: int, j: int|
            0 <= i < j < rows.len() ==> parent.index_of(#[trigger] rows[i]) < parent.index_of(
                #[trigger] rows[j],
            )
    } else {
        ordered::strictly_sorted(rows)
    }
}

/// Pairs of rows and sizes are those of the representatives, and the rows are in order.
proof fn lemma_arranged<State: Bounded>(
    representatives: Seq<(State, usize)>,
    parent: Seq<State>,
    states: Seq<State>,
    sizes: Seq<usize>,
)
    requires
        general::arranged(representatives, parent, states, sizes),
        general::labels(representatives).no_duplicates(),
        states.len() == sizes.len(),
    ensures
        forall|k: int|
            0 <= k < states.len() ==> representatives.contains((#[trigger] states[k], sizes[k])),
        forall|k: int|
            0 <= k < representatives.len() ==> lists_pair(
                states,
                sizes,
                #[trigger] representatives[k],
            ),
        rows_in_order(parent, states),
{
    let list = general::labels(representatives);
    general::lemma_listed_labels_differ(representatives, parent, states, sizes);
    if general::all_among(list, parent) {
        let (entries, given) = choose|
            entries: Seq<RowEntry<State>>,
            given: Seq<RowEntry<State>>,
        |
            {
                &&& #[trigger] ordered::sorted(entries)
                &&& #[trigger] general::rows_fit(representatives, parent, given)
                &&& entries.to_multiset() == given.to_multiset()
                &&& states == Seq::new(entries.len(), |i: int| entries[i].state)
                &&& sizes == Seq::new(entries.len(), |i: int| entries[i].size)
            };
        ordered::lemma_same_members(given, entries);
        assert forall|k: int| 0 <= k < states.len() implies representatives.contains(
            (#[trigger] states[k], sizes[k]),
        ) && entries[k].row < parent.len() && parent[entries[k].row as int] == states[k] by {
            assert(entries.contains(entries[k]) && given.contains(entries[k]));
            let a = given.index_of(entries[k]);
            assert(given[a] == entries[k]);
            assert(representatives[a] == (states[k], sizes[k]));
        }
        assert forall|k: int| 0 <= k < representatives.len() implies lists_pair(
            states,
            sizes,
            #[trigger] representatives[k],
        ) by {
            assert(given.contains(given[k]) && entries.contains(given[k]));
            let a = entries.index_of(given[k]);
            assert(entries[a] == given[k]);
            assert(states[a] == representatives[k].0 && sizes[a] == representatives[k].1);
        }
        assert(general::all_among(states, parent)) by {
            assert forall|k: int| 0 <= k < states.len() implies parent.contains(
                #[trigger] states[k],
            ) by {
                assert(parent[entries[k].row as int] == states[k]);
            }
        }
        if parent.no_duplicates() {
            assert forall|i: int, j: int| 0 <= i < j < states.len() implies parent.index_of(
                #[trigger] states[i],
            ) < parent.index_of(#[trigger] states[j]) by {
                assert(parent[parent.index_of(states[i])] == states[i]);
                assert(parent[parent.index_of(states[j])] == states[j]);
                assert(parent.index_of(states[i]) == entries[i].row);
                assert(parent.index_of(states[j]) == entries[j].row);
                assert(entries[i].rank() <= entries[j].rank());
                assert(states[i] != states[j]);
            }
        }
    } else {
        let entries = choose|entries: Seq<LabelEntry<State>>|
            {
                &&& #[trigger] ordered::sorted(entries)
                &&& entries.to_multiset() == general::with_labels(representatives).to_multiset()
                &&& states == Seq::new(entries.len(), |i: int| entries[i].state)
                &&& sizes == Seq::new(entries.len(), |i: int| entries[i].size)
            };
        let given = general::with_labels(representatives);
        ordered::lemma_same_members(given, entries);
        assert forall|k: int| 0 <= k < states.len() implies representatives.contains(
            (#[trigger] states[k], sizes[k]),
        ) by {
            assert(entries.contains(entries[k]) && given.contains(entries[k]));
            let a = given.index_of(entries[k]);
            assert(given[a] == entries[k]);
            assert(representatives[a] == (states[k], sizes[k]));
        }
        assert forall|k: int| 0 <= k < representatives.len() implies lists_pair(
            states,
            sizes,
            #[trigger] representatives[k],
        ) by {
            assert(given.contains(given[k]) && entries.contains(given[k]));
            let a = entries.index_of(given[k]);
            assert(entries[a] == given[k]);
            assert(states[a] == representatives[k].0 && sizes[a] == representatives[k].1);
        }
        assert(!general::all_among(states, parent)) by {
            let k = choose|k: int| 0 <= k < list.len() && !parent.contains(#[trigger] list[k]);
            assert(lists_pair(states, sizes, representatives[k]));
            let a = choose|a: int|
                0 <= a < states.len() && (#[trigger] states[a], sizes[a]) == representatives[k];
            assert(!parent.contains(states[a]));
        }
        assert forall|i: int, j: int| 0 <= i < j < states.len() implies states[i].rank()
            < states[j].rank() by {
            assert(entries[i].rank() <= entries[j].rank());
            assert(states[i] != states[j]);
            if states[i].rank() == states[j].rank() {
                State::rank_identifies(states[i], states[j]);
            }
        }
    }
}

/// Whether a pair stands in some row.
pub open spec fn lists_pair<State>(
    states: Seq<State>,
    sizes: Seq<usize>,
    pair: (State, usize),
) -> bool {
    exists|k: int| 0 <= k < states.len() && (#[trigger] states[k], sizes[k]) == pair
}

/// The orbits that two rows open have no state in common.
pub proof fn lemma_opened_orbits_apart<State: Bounded, M: SymmetryMap<State>>(
    parent: Seq<State>,
    generators: Seq<SymmetryGenerator<M>>,
    left: int,
    right: int,
    state: State,
)
    requires
        general::all_injective(generators),
        opens_orbit(parent, generators, left),
        opens_orbit(parent, generators, right),
        in_orbit(generators, parent[left], state),
        in_orbit(generators, parent[right], state),
    ensures
        left == right,
{
    if left < right {
        lemma_fresh_orbit_apart(parent, generators, right, left, state);
    } else if right < left {
        lemma_fresh_orbit_apart(parent, generators, left, right, state);
    }
}

/// Whether some row stands for the orbit that a parent row opens.
pub open spec fn has_row<State: Bounded, M: SymmetryMap<State>>(
    parent: Seq<State>,
    generators: Seq<SymmetryGenerator<M>>,
    ordering: RepresentativeOrdering,
    row: int,
    states: Seq<State>,
    sizes: Seq<usize>,
) -> bool {
    exists|k: int|
        0 <= k < states.len() && describes_orbit(
            parent,
            generators,
            ordering,
            row,
            #[trigger] states[k],
            sizes[k],
        )
}

/// Whether a state lies in no orbit of the sector.
pub open spec fn outside_sector<State: Bounded, M: SymmetryMap<State>>(
    parent: Seq<State>,
    generators: Seq<SymmetryGenerator<M>>,
    state: State,
) -> bool {
    forall|row: int| #[trigger]
        opens_orbit(parent, generators, row) ==> !in_orbit(generators, parent[row], state)
}

/// Whether rows and sizes are those of the orbits of the sector.
pub open spec fn lists_sector<State: Bounded, M: SymmetryMap<State>>(
    parent: Seq<State>,
    generators: Seq<SymmetryGenerator<M>>,
    ordering: RepresentativeOrdering,
    states: Seq<State>,
    sizes: Seq<usize>,
) -> bool {
    &&& states.len() == sizes.len()
    &&& states.no_duplicates()
    &&& forall|k: int|
        0 <= k < states.len() ==> described(
            parent,
            generators,
            ordering,
            parent.len() as int,
            #[trigger] states[k],
            sizes[k],
        )
    &&& forall|row: int| #[trigger]
        opens_orbit(parent, generators, row) ==> has_row(
            parent,
            generators,
            ordering,
            row,
            states,
            sizes,
        )
    &&& rows_in_order(parent, states)
}

/// Whether the image of a state is what the orbits of the sector make it.
pub open spec fn image_fits<State: Bounded, M: SymmetryMap<State>>(
    parent: Seq<State>,
    generators: Seq<SymmetryGenerator<M>>,
    ordering: RepresentativeOrdering,
    state: State,
    image: Option<GeneralSymmetryImage<State, M::Factor>>,
) -> bool {
    match image {
        Some(image) => imaged(parent, generators, ordering, parent.len() as int, state, image),
        None => outside_sector(parent, generators, state),
    }
}

proof fn lemma_rows_list_sector<State: Bounded, M: SymmetryMap<State>>(
    parent: Seq<State>,
    generators: Seq<SymmetryGenerator<M>>,
    ordering: RepresentativeOrdering,
    whole: Reduction<State, M::Factor>,
    states: Seq<State>,
    sizes: Seq<usize>,
)
    requires
        reduction_fits(parent, generators, ordering, parent.len() as int, whole),
        general::labels(whole.representatives).no_duplicates(),
        general::arranged(whole.representatives, parent, states, sizes),
        states.len() == sizes.len(),
    ensures
        lists_sector(parent, generators, ordering, states, sizes),
{
    lemma_arranged(whole.representatives, parent, states, sizes);
    general::lemma_listed_labels_differ(whole.representatives, parent, states, sizes);
    assert forall|k: int| 0 <= k < states.len() implies described(
        parent,
        generators,
        ordering,
        parent.len() as int,
        #[trigger] states[k],
        sizes[k],
    ) by {
        assert(whole.representatives.contains((states[k], sizes[k])));
        let at = whole.representatives.index_of((states[k], sizes[k]));
        assert(whole.representatives[at] == (states[k], sizes[k]));
    }
    assert forall|row: int| #[trigger] opens_orbit(parent, generators, row) implies has_row(
        parent,
        generators,
        ordering,
        row,
        states,
        sizes,
    ) by {
        assert(represented(parent, generators, ordering, row, whole.representatives));
        let at = choose|k: int|
            0 <= k < whole.representatives.len() && describes_orbit(
                parent,
                generators,
                ordering,
                row,
                (#[trigger] whole.representatives[k]).0,
                whole.representatives[k].1,
            );
        assert(lists_pair(states, sizes, whole.representatives[at]));
        let k = choose|k: int|
            0 <= k < states.len() && (#[trigger] states[k], sizes[k])
                == whole.representatives[at];
        assert(describes_orbit(parent, generators, ordering, row, states[k], sizes[k]));
    }
}

/// The rows of a reduced basis are exactly the least (or greatest) states of the orbits that meet
/// the parent basis and are compatible with the sector, each once and in order, with the sizes of
/// the orbits. A physical state has an image exactly if it lies in such an orbit; the image names
/// the row and the size of that orbit. As many states share a row as its orbit has, so phases
/// of modulus one over the root of the orbit size make a normalized vector.
pub proof fn law_rows_are_the_sector<Parent: Basis, M>(reduced: GeneralBasis<Parent, M>) where
    Parent::State: Bounded,
    M: SymmetryMap<Parent::State>,

    requires
        reduced.valid(),
        reduced.spec_generators().len() > 0,
        general::all_injective(reduced.spec_generators()),
    ensures
        lists_sector(
            reduced.spec_parent().spec_states(),
            reduced.spec_generators(),
            reduced.spec_ordering(),
            reduced.spec_rows(),
            reduced.spec_orbit_lengths(),
        ),
        forall|state: Parent::State|
            image_fits(
                reduced.spec_parent().spec_states(),
                reduced.spec_generators(),
                reduced.spec_ordering(),
                state,
                #[trigger] reduced.spec_image(state),
            ),
        forall|k: int|
            0 <= k < reduced.spec_rows().len() ==> states_of(
                reduced,
                #[trigger] reduced.spec_rows()[k],
            ).finite() && states_of(reduced, reduced.spec_rows()[k]).len()
                == reduced.spec_orbit_lengths()[k],
{
    reduced.lemma_valid();
    let parent = reduced.spec_parent().spec_states();
    let gens = reduced.spec_generators();
    let ordering = reduced.spec_ordering();
    let rows = reduced.spec_rows();
    let sizes = reduced.spec_orbit_lengths();
    let inside = reduced.spec_inside();
    let whole = general::reduced(parent, gens, inside, ordering, parent.len())->Ok_0;
    lemma_reduction_fits(parent, gens, inside, ordering, parent.len());
    general::lemma_representatives_differ(parent, gens, inside, ordering, parent.len());
    lemma_rows_list_sector(parent, gens, ordering, whole, rows, sizes);
    lemma_images_fit(reduced);
    assert forall|k: int| 0 <= k < rows.len() implies states_of(
        reduced,
        #[trigger] rows[k],
    ).finite() && states_of(reduced, rows[k]).len() == sizes[k] by {
        assert(described(parent, gens, ordering, parent.len() as int, rows[k], sizes[k]));
        let row = choose|row: int|
            row < parent.len() && #[trigger] describes_orbit(
                parent,
                gens,
                ordering,
                row,
                rows[k],
                sizes[k],
            );
        lemma_states_of_orbit(reduced, row, rows[k], sizes[k]);
    }
}

/// The vectors of a sector of turns are normalized: every amplitude is a phase of modulus one
/// over the root of the orbit size, and the orbit has as many states.
pub proof fn law_sector_vectors_are_normalized<Parent: Basis, M>(
    reduced: GeneralBasis<Parent, M>,
    state: Parent::State,
) where Parent::State: Bounded, M: SymmetryMap<Parent::State, Factor = Turn>
    requires
        reduced.valid(),
        reduced.spec_generators().len() > 0,
        general::all_injective(reduced.spec_generators()),
        reduced.spec_image(state) is Some,
    ensures
        reduced.spec_image(state)->0.phase.spec_is_unit(),
        states_of(reduced, reduced.spec_image(state)->0.representative).finite(),
        states_of(reduced, reduced.spec_image(state)->0.representative).len()
            == reduced.spec_image(state)->0.orbit_size,
{
    let parent = reduced.spec_parent().spec_states();
    let gens = reduced.spec_generators();
    let ordering = reduced.spec_ordering();
    let image = reduced.spec_image(state)->0;
    lemma_images_fit(reduced);
    assert(image_fits(parent, gens, ordering, state, Some(image)));
    let row = choose|row: int|
        row < parent.len() && #[trigger] images_orbit(parent, gens, ordering, row, state, image);
    lemma_states_of_orbit(reduced, row, image.representative, image.orbit_size);
    lemma_trace_is_orbit(gens, parent[row]);
    symmetry::lemma_trace_sound(gens, parent[row]);
    let known = symmetry::orbit_trace(gens, parent[row])->Ok_0;
    let phases = <Turn as PhaseFactor>::spec_relative(
        known.coefficients,
        symmetry::extreme_place(known.states, ordering),
    )->0;
    assert(known.states.contains(state));
    assert(phases[known.states.index_of(state)].circle > 0);
}

pub proof fn lemma_images_fit<Parent: Basis, M>(reduced: GeneralBasis<Parent, M>) where
    Parent::State: Bounded,
    M: SymmetryMap<Parent::State>,

    requires
        reduced.valid(),
        reduced.spec_generators().len() > 0,
        general::all_injective(reduced.spec_generators()),
    ensures
        forall|state: Parent::State|
            image_fits(
                reduced.spec_parent().spec_states(),
                reduced.spec_generators(),
                reduced.spec_ordering(),
                state,
                #[trigger] reduced.spec_image(state),
            ),
{
    reduced.lemma_valid();
    let parent = reduced.spec_parent().spec_states();
    let gens = reduced.spec_generators();
    let ordering = reduced.spec_ordering();
    let inside = reduced.spec_inside();
    let images = |state: Parent::State| reduced.spec_image(state);
    let whole = general::reduced(parent, gens, inside, ordering, parent.len())->Ok_0;
    lemma_reduction_fits(parent, gens, inside, ordering, parent.len());
    assert forall|state: Parent::State|
        image_fits(parent, gens, ordering, state, #[trigger] reduced.spec_image(state)) by {
        assert(images(state) == general::entry_of(whole.lookup, state));
        if reduced.spec_image(state) is Some {
            assert(whole.lookup.dom().contains(state));
        } else {
            assert(!whole.lookup.dom().contains(state));
        }
    }
}

/// The orbit of every state of a sector has a member.
pub proof fn lemma_image_size<Parent: Basis, M>(
    reduced: GeneralBasis<Parent, M>,
    state: Parent::State,
) where Parent::State: Bounded, M: SymmetryMap<Parent::State>
    requires
        reduced.valid(),
        reduced.spec_generators().len() > 0,
        general::all_injective(reduced.spec_generators()),
        reduced.spec_image(state) is Some,
    ensures
        reduced.spec_image(state)->0.orbit_size > 0,
{
    let parent = reduced.spec_parent().spec_states();
    let gens = reduced.spec_generators();
    let ordering = reduced.spec_ordering();
    let image = reduced.spec_image(state)->0;
    lemma_images_fit(reduced);
    assert(image_fits(parent, gens, ordering, state, Some(image)));
    let row = choose|row: int|
        row < parent.len() && #[trigger] images_orbit(parent, gens, ordering, row, state, image);
    let orbit = orbit_of(gens, parent[row]);
    assert(orbit.contains(state));
    vstd::set::axiom_set_contains_len(orbit, state);
}

/// The states with one representative are those of its orbit.
pub proof fn lemma_states_of_orbit<Parent: Basis, M>(
    reduced: GeneralBasis<Parent, M>,
    row: int,
    representative: Parent::State,
    size: usize,
) where Parent::State: Bounded, M: SymmetryMap<Parent::State>
    requires
        general::all_injective(reduced.spec_generators()),
        describes_orbit(
            reduced.spec_parent().spec_states(),
            reduced.spec_generators(),
            reduced.spec_ordering(),
            row,
            representative,
            size,
        ),
        forall|state: Parent::State|
            image_fits(
                reduced.spec_parent().spec_states(),
                reduced.spec_generators(),
                reduced.spec_ordering(),
                state,
                #[trigger] reduced.spec_image(state),
            ),
    ensures
        states_of(reduced, representative) == orbit_of(
            reduced.spec_generators(),
            reduced.spec_parent().spec_states()[row],
        ),
{
    let parent = reduced.spec_parent().spec_states();
    let gens = reduced.spec_generators();
    let ordering = reduced.spec_ordering();
    let orbit = orbit_of(gens, parent[row]);
    assert forall|state: Parent::State|
        states_of(reduced, representative).contains(state) <==> orbit.contains(state) by {
        let image = reduced.spec_image(state);
        assert(image_fits(parent, gens, ordering, state, image));
        if image is Some {
            let other = choose|other: int|
                other < parent.len() && #[trigger] images_orbit(
                    parent,
                    gens,
                    ordering,
                    other,
                    state,
                    image->0,
                );
            if image->0.representative == representative {
                lemma_opened_orbits_apart(parent, gens, row, other, representative);
            }
            if orbit.contains(state) {
                lemma_opened_orbits_apart(parent, gens, row, other, state);
                let found = image->0.representative;
                assert(in_orbit(gens, parent[row], found));
                assert(in_orbit(gens, parent[row], representative));
                assert(found.rank() == representative.rank());
                <Parent::State as ordered::Coded>::rank_identifies(found, representative);
            }
        } else {
            assert(opens_orbit(parent, gens, row));
        }
    }
    assert(states_of(reduced, representative) =~= orbit);
}

} // verus!

//! Bases reduced by finite symmetry maps.

use vstd::prelude::*;

use crate::amplitudes::{ReductionFactor, ReductionImage};
use crate::basis;
use crate::basis::{Basis, EitherPhase, Factor, Transitions};
use crate::error::{QmbedError, Result};
use crate::lattice_map;
use crate::lattice_map::LatticeSymmetryMap;
use crate::ordered;
use crate::ordered::{sort, Bounded, Ranked};
use crate::symmetry;
use crate::symmetry::{
    find_extreme, PhaseFactor, RepresentativeOrdering, SymmetryGenerator, SymmetryMap,
    SymmetryReducer, SymmetryTrace,
};
use crate::table::StateTable;

verus! {

/// Image of a physical state in a reduced basis.
#[derive(Clone, Copy, Debug)]
pub struct GeneralSymmetryImage<State, Phase> {
    /// Representative of the orbit.
    pub representative: State,
    /// Phase of the state relative to the representative.
    pub phase: Phase,
    /// Number of states in the orbit.
    pub orbit_size: usize,
}

/// What has been reduced so far.
#[verifier::reject_recursive_types(State)]
pub struct Reduction<State, Phase> {
    /// Representatives of the compatible orbits, each with the size of its orbit.
    pub representatives: Seq<(State, usize)>,
    /// States of all orbits met.
    pub visited: Set<State>,
    /// Images of the states of the compatible orbits.
    pub lookup: Map<State, GeneralSymmetryImage<State, Phase>>,
}

/// The value under a key, if there is one.
pub open spec fn entry_of<K, V>(map: Map<K, V>, key: K) -> Option<V> {
    if map.dom().contains(key) {
        Some(map[key])
    } else {
        None
    }
}

/// Nothing has been reduced.
pub open spec fn nothing_reduced<State, Phase>() -> Reduction<State, Phase> {
    Reduction {
        representatives: Seq::empty(),
        visited: Set::empty(),
        lookup: Map::empty(),
    }
}

/// Images of the states of one orbit.
pub open spec fn orbit_images<State, Phase>(
    states: Seq<State>,
    place: int,
    phases: Seq<Phase>,
) -> Map<State, GeneralSymmetryImage<State, Phase>> {
    Map::new(
        |state: State| states.contains(state),
        |state: State|
            GeneralSymmetryImage {
                representative: states[place],
                phase: phases[states.index_of(state)],
                orbit_size: states.len() as usize,
            },
    )
}

/// Whether all states of a list are among those of another.
pub open spec fn all_among<State>(states: Seq<State>, parent: Seq<State>) -> bool {
    forall|i: int| 0 <= i < states.len() ==> parent.contains(#[trigger] states[i])
}

/// What is reduced after the orbit of one more seed.
pub open spec fn reduce_seed<State: Bounded, M: SymmetryMap<State>>(
    so_far: Reduction<State, M::Factor>,
    seed: State,
    parent: Seq<State>,
    generators: Seq<SymmetryGenerator<M>>,
    inside: bool,
    ordering: RepresentativeOrdering,
) -> core::result::Result<Reduction<State, M::Factor>, QmbedError> {
    if so_far.visited.contains(seed) {
        Ok(so_far)
    } else {
        match symmetry::orbit_trace(generators, seed) {
            Err(error) => Err(error),
            Ok(known) => {
                let visited = so_far.visited.union(known.states.to_set());
                let place = symmetry::extreme_place(known.states, ordering);
                if inside && !all_among(known.states, parent) {
                    Err(QmbedError::IncompatibleSymmetry("a symmetry map leaves the parent basis"))
                } else if !known.compatible {
                    Ok(Reduction { visited, ..so_far })
                } else {
                    match <M::Factor as PhaseFactor>::spec_relative(known.coefficients, place) {
                        None => Err(
                            QmbedError::IncompatibleSymmetry(
                                "symmetry maps do not define a one-dimensional orbit sector",
                            ),
                        ),
                        Some(phases) => Ok(
                            Reduction {
                                representatives: so_far.representatives.push(
                                    (known.states[place], known.states.len() as usize),
                                ),
                                visited,
                                lookup: so_far.lookup.union_prefer_right(
                                    orbit_images(known.states, place, phases),
                                ),
                            },
                        ),
                    }
                }
            },
        }
    }
}

/// What is reduced after the first seeds, in the order of the parent basis.
pub open spec fn reduced<State: Bounded, M: SymmetryMap<State>>(
    parent: Seq<State>,
    generators: Seq<SymmetryGenerator<M>>,
    inside: bool,
    ordering: RepresentativeOrdering,
    count: nat,
) -> core::result::Result<Reduction<State, M::Factor>, QmbedError>
    decreases count,
{
    if count == 0 {
        Ok(nothing_reduced())
    } else {
        match reduced(parent, generators, inside, ordering, (count - 1) as nat) {
            Err(error) => Err(error),
            Ok(so_far) => reduce_seed(
                so_far,
                parent[count - 1],
                parent,
                generators,
                inside,
                ordering,
            ),
        }
    }
}

/// Whether the orbits met from the first seeds can be counted by the machine.
pub open spec fn orbits_counted<State: Bounded, M: SymmetryMap<State>>(
    parent: Seq<State>,
    generators: Seq<SymmetryGenerator<M>>,
    inside: bool,
    ordering: RepresentativeOrdering,
    count: nat,
) -> bool
    decreases count,
{
    count > 0 ==> {
        let before = (count - 1) as nat;
        &&& orbits_counted(parent, generators, inside, ordering, before)
        &&& match reduced(parent, generators, inside, ordering, before) {
            Err(_) => true,
            Ok(so_far) => so_far.visited.contains(parent[before as int]) || match symmetry::orbit_trace(
                generators,
                parent[before as int],
            ) {
                Err(_) => true,
                Ok(known) => known.states.len() <= usize::MAX,
            },
        }
    }
}

/// A representative and its row in the parent basis.
#[derive(Clone, Copy, Debug)]
pub struct RowEntry<State> {
    /// Row in the parent basis.
    pub row: usize,
    /// The representative.
    pub state: State,
    /// Size of its orbit.
    pub size: usize,
}

impl<State: Copy> Ranked for RowEntry<State> {
    open spec fn rank(self) -> int {
        self.row as int
    }

    fn at_most(&self, other: &Self) -> (answer: bool) {
        self.row <= other.row
    }
}

/// A representative and its orbit size, in the order of the states.
#[derive(Clone, Copy, Debug)]
pub struct LabelEntry<State> {
    /// The representative.
    pub state: State,
    /// Size of its orbit.
    pub size: usize,
}

impl<State: Bounded> Ranked for LabelEntry<State> {
    open spec fn rank(self) -> int {
        self.state.rank()
    }

    fn at_most(&self, other: &Self) -> (answer: bool) {
        self.state.at_most(&other.state)
    }
}

/// Whether entries give the representatives their rows in the parent basis.
pub open spec fn rows_fit<State>(
    representatives: Seq<(State, usize)>,
    parent: Seq<State>,
    given: Seq<RowEntry<State>>,
) -> bool {
    &&& given.len() == representatives.len()
    &&& forall|i: int|
        0 <= i < given.len() ==> {
            &&& (#[trigger] given[i]).row < parent.len()
            &&& parent[given[i].row as int] == representatives[i].0
            &&& given[i].state == representatives[i].0
            &&& given[i].size == representatives[i].1
        }
}

/// Representatives as entries.
pub open spec fn with_labels<State>(representatives: Seq<(State, usize)>) -> Seq<
    LabelEntry<State>,
> {
    Seq::new(
        representatives.len(),
        |i: int| LabelEntry { state: representatives[i].0, size: representatives[i].1 },
    )
}

/// The states of the representatives.
pub open spec fn labels<State>(representatives: Seq<(State, usize)>) -> Seq<State> {
    Seq::new(representatives.len(), |i: int| representatives[i].0)
}

/// Whether states and orbit sizes list the representatives by their rows.
pub open spec fn listed_by_row<State: Bounded>(
    representatives: Seq<(State, usize)>,
    parent: Seq<State>,
    states: Seq<State>,
    sizes: Seq<usize>,
) -> bool {
    exists|entries: Seq<RowEntry<State>>, given: Seq<RowEntry<State>>|
        {
            &&& #[trigger] ordered::sorted(entries)
            &&& #[trigger] rows_fit(representatives, parent, given)
            &&& entries.to_multiset() == given.to_multiset()
            &&& states == Seq::new(entries.len(), |i: int| entries[i].state)
            &&& sizes == Seq::new(entries.len(), |i: int| entries[i].size)
        }
}

/// Whether states and orbit sizes list the representatives by their labels.
pub open spec fn listed_by_label<State: Bounded>(
    representatives: Seq<(State, usize)>,
    states: Seq<State>,
    sizes: Seq<usize>,
) -> bool {
    exists|entries: Seq<LabelEntry<State>>|
        {
            &&& #[trigger] ordered::sorted(entries)
            &&& entries.to_multiset() == with_labels(representatives).to_multiset()
            &&& states == Seq::new(entries.len(), |i: int| entries[i].state)
            &&& sizes == Seq::new(entries.len(), |i: int| entries[i].size)
        }
}

/// Rows of a reduced basis: in the order of the parent basis where all
/// representatives belong to it, in the order of their labels otherwise.
pub open spec fn arranged<State: Bounded>(
    representatives: Seq<(State, usize)>,
    parent: Seq<State>,
    states: Seq<State>,
    sizes: Seq<usize>,
) -> bool {
    if all_among(labels(representatives), parent) {
        listed_by_row(representatives, parent, states, sizes)
    } else {
        listed_by_label(representatives, states, sizes)
    }
}

/// Whether a map keeps different states apart.
pub open spec fn injective<State, M: SymmetryMap<State>>(generator: SymmetryGenerator<M>) -> bool {
    forall|left: State, right: State|
        #![trigger symmetry::step(generator, left), symmetry::step(generator, right)]
        match (symmetry::step(generator, left), symmetry::step(generator, right)) {
            (Ok((a, _)), Ok((b, _))) => a == b ==> left == right,
            _ => true,
        }
}

/// Whether all maps keep different states apart.
pub open spec fn all_injective<State, M: SymmetryMap<State>>(
    generators: Seq<SymmetryGenerator<M>>,
) -> bool {
    forall|g: int| 0 <= g < generators.len() ==> injective(#[trigger] generators[g])
}

/// Distinct numbers below their count are all the numbers below it.
proof fn lemma_all_numbers(list: Seq<int>, number: int)
    requires
        list.no_duplicates(),
        forall|i: int| 0 <= i < list.len() ==> 0 <= #[trigger] list[i] < list.len(),
        0 <= number < list.len(),
    ensures
        list.contains(number),
{
    let range = vstd::set_lib::set_int_range(0, list.len() as int);
    list.unique_seq_to_set();
    vstd::set_lib::lemma_int_range(0, list.len() as int);
    assert(list.to_set().subset_of(range)) by {
        assert forall|v: int| list.to_set().contains(v) implies range.contains(v) by {
            let i = list.index_of(v);
            assert(list[i] == v);
        }
    }
    vstd::set_lib::lemma_subset_equality(list.to_set(), range);
    assert(range.contains(number));
}

/// What a generator leads into an orbit comes from the orbit.
proof fn lemma_comes_from_orbit<State: Bounded, M: SymmetryMap<State>>(
    generators: Seq<SymmetryGenerator<M>>,
    seed: State,
    g: int,
    source: State,
)
    requires
        all_injective(generators),
        symmetry::orbit_trace(generators, seed) is Ok,
        0 <= g < generators.len(),
        symmetry::step(generators[g], source) is Ok,
        symmetry::orbit_trace(generators, seed)->Ok_0.states.contains(
            symmetry::step(generators[g], source)->Ok_0.0,
        ),
    ensures
        symmetry::orbit_trace(generators, seed)->Ok_0.states.contains(source),
{
    let known = symmetry::orbit_trace(generators, seed)->Ok_0;
    let n = known.states.len();
    let gen = generators[g];
    symmetry::lemma_trace_sound(generators, seed);
    let images = Seq::new(
        n,
        |i: int| known.states.index_of(symmetry::step(gen, known.states[i])->Ok_0.0),
    );
    assert forall|i: int| 0 <= i < n implies 0 <= #[trigger] images[i] < n
        && known.states[images[i]] == symmetry::step(gen, known.states[i])->Ok_0.0
        && symmetry::step(gen, known.states[i]) is Ok by {
        symmetry::law_orbit_closed(generators, seed, i, g);
        assert(symmetry::leads_inside(generators, known, i, g));
    }
    assert forall|i: int, j: int| 0 <= i < n && 0 <= j < n && i != j implies images[i]
        != images[j] by {
        if images[i] == images[j] {
            assert(injective(gen));
            assert(known.states[images[i]] == known.states[images[j]]);
            assert(known.states[i] == known.states[j]);
        }
    }
    let target = symmetry::step(gen, source)->Ok_0.0;
    let at = known.states.index_of(target);
    lemma_all_numbers(images, at);
    let i = images.index_of(at);
    assert(images[i] == at);
    assert(injective(gen));
    assert(known.states[i] == source);
}

/// The seed of an orbit lies in every orbit that shares a state with it.
proof fn lemma_seed_in_orbit<State: Bounded, M: SymmetryMap<State>>(
    generators: Seq<SymmetryGenerator<M>>,
    first: State,
    second: State,
    place: int,
)
    requires
        all_injective(generators),
        symmetry::orbit_trace(generators, first) is Ok,
        symmetry::orbit_trace(generators, second) is Ok,
        0 <= place < symmetry::orbit_trace(generators, second)->Ok_0.states.len(),
        symmetry::orbit_trace(generators, first)->Ok_0.states.contains(
            symmetry::orbit_trace(generators, second)->Ok_0.states[place],
        ),
    ensures
        symmetry::orbit_trace(generators, first)->Ok_0.states.contains(second),
    decreases place,
{
    let known = symmetry::orbit_trace(generators, second)->Ok_0;
    symmetry::lemma_trace_sound(generators, second);
    if place > 0 {
        assert(symmetry::explains(generators, known, place));
        let source = known.sources[place].0 as int;
        let g = known.sources[place].1 as int;
        lemma_comes_from_orbit(generators, first, g, known.states[source]);
        lemma_seed_in_orbit(generators, first, second, source);
    }
}

/// Orbits of maps that keep states apart do not overlap: two orbits that share a
/// state contain each other's seeds.
pub proof fn law_orbits_do_not_overlap<State: Bounded, M: SymmetryMap<State>>(
    generators: Seq<SymmetryGenerator<M>>,
    first: State,
    second: State,
    common: State,
)
    requires
        all_injective(generators),
        symmetry::orbit_trace(generators, first) is Ok,
        symmetry::orbit_trace(generators, second) is Ok,
        symmetry::orbit_trace(generators, first)->Ok_0.states.contains(common),
        symmetry::orbit_trace(generators, second)->Ok_0.states.contains(common),
    ensures
        symmetry::orbit_trace(generators, first)->Ok_0.states.contains(second),
        symmetry::orbit_trace(generators, second)->Ok_0.states.contains(first),
{
    let a = symmetry::orbit_trace(generators, first)->Ok_0.states;
    let b = symmetry::orbit_trace(generators, second)->Ok_0.states;
    lemma_seed_in_orbit(generators, first, second, b.index_of(common));
    lemma_seed_in_orbit(generators, second, first, a.index_of(common));
}

/// Whether a representative stands for an orbit all of whose states have been met.
pub open spec fn stands_for_orbit<State: Bounded, M: SymmetryMap<State>>(
    generators: Seq<SymmetryGenerator<M>>,
    so_far: Reduction<State, M::Factor>,
    representative: State,
    seed: State,
) -> bool {
    match symmetry::orbit_trace(generators, seed) {
        Err(_) => false,
        Ok(known) => {
            &&& known.states.contains(representative)
            &&& known.states.to_set().subset_of(so_far.visited)
        },
    }
}

/// Whether a representative stands for some orbit.
pub open spec fn stands<State: Bounded, M: SymmetryMap<State>>(
    generators: Seq<SymmetryGenerator<M>>,
    so_far: Reduction<State, M::Factor>,
    representative: State,
) -> bool {
    exists|seed: State| #[trigger] stands_for_orbit(generators, so_far, representative, seed)
}

/// Whether every representative stands for an orbit.
pub open spec fn all_stand_for_orbits<State: Bounded, M: SymmetryMap<State>>(
    generators: Seq<SymmetryGenerator<M>>,
    so_far: Reduction<State, M::Factor>,
) -> bool {
    forall|i: int|
        0 <= i < so_far.representatives.len() ==> stands(
            generators,
            so_far,
            (#[trigger] so_far.representatives[i]).0,
        )
}

/// Representatives differ where the maps keep states apart.
pub proof fn lemma_representatives_differ<State: Bounded, M: SymmetryMap<State>>(
    parent: Seq<State>,
    generators: Seq<SymmetryGenerator<M>>,
    inside: bool,
    ordering: RepresentativeOrdering,
    count: nat,
)
    requires
        all_injective(generators),
        count <= parent.len(),
        reduced(parent, generators, inside, ordering, count) is Ok,
    ensures
        all_stand_for_orbits(
            generators,
            reduced(parent, generators, inside, ordering, count)->Ok_0,
        ),
        labels(
            reduced(parent, generators, inside, ordering, count)->Ok_0.representatives,
        ).no_duplicates(),
    decreases count,
{
    if count > 0 {
        let before = reduced(parent, generators, inside, ordering, (count - 1) as nat)->Ok_0;
        let after = reduced(parent, generators, inside, ordering, count)->Ok_0;
        let seed = parent[count - 1];
        lemma_representatives_differ(parent, generators, inside, ordering, (count - 1) as nat);
        let n = before.representatives.len();
        assert(before.visited.subset_of(after.visited));
        assert forall|i: int| 0 <= i < n implies stands(
            generators,
            after,
            (#[trigger] after.representatives[i]).0,
        ) by {
            assert(after.representatives[i] == before.representatives[i]);
            assert(stands(generators, before, before.representatives[i].0));
            let old_seed = choose|seed: State| #[trigger]
                stands_for_orbit(generators, before, before.representatives[i].0, seed);
            assert(stands_for_orbit(
                generators,
                after,
                after.representatives[i].0,
                old_seed,
            ));
        }
        if after.representatives.len() > n {
            let known = symmetry::orbit_trace(generators, seed)->Ok_0;
            let place = symmetry::extreme_place(known.states, ordering);
            symmetry::lemma_trace_sound(generators, seed);
            lemma_has_extreme(known.states, ordering);
            let added = known.states[place];
            assert(known.states.contains(added));
            assert(stands_for_orbit(generators, after, added, seed));
            assert(after.representatives[n as int].0 == added);
            assert forall|i: int| 0 <= i < n implies before.representatives[i].0 != added by {
                assert(stands(generators, before, before.representatives[i].0));
                if before.representatives[i].0 == added {
                    let old_seed = choose|seed: State| #[trigger]
                        stands_for_orbit(generators, before, before.representatives[i].0, seed);
                    law_orbits_do_not_overlap(generators, old_seed, seed, added);
                    let met = symmetry::orbit_trace(generators, old_seed)->Ok_0.states;
                    assert(met.to_set().contains(seed));
                }
            }
            let list = labels(after.representatives);
            let old_list = labels(before.representatives);
            assert forall|i: int, j: int| 0 <= i < list.len() && 0 <= j < list.len() && i
                != j implies list[i] != list[j] by {
                if i < n && j < n {
                    assert(list[i] == old_list[i] && list[j] == old_list[j]);
                } else if i < n {
                    assert(before.representatives[i].0 != added);
                } else {
                    assert(before.representatives[j].0 != added);
                }
            }
        } else {
            assert(after.representatives == before.representatives);
        }
    }
}

/// A list of states has one that stands for it.
pub proof fn lemma_has_extreme<State: Bounded>(states: Seq<State>, ordering: RepresentativeOrdering)
    requires
        states.len() > 0,
    ensures
        symmetry::is_extreme(states, ordering, symmetry::extreme_place(states, ordering)),
{
    lemma_extreme_of_prefix(states, ordering, states.len());
}

proof fn lemma_extreme_of_prefix<State: Bounded>(
    states: Seq<State>,
    ordering: RepresentativeOrdering,
    count: nat,
) -> (place: int)
    requires
        0 < count <= states.len(),
    ensures
        0 <= place < count,
        forall|i: int|
            0 <= i < count ==> match ordering {
                RepresentativeOrdering::Minimum => states[place].rank() <= (
                #[trigger] states[i]).rank(),
                RepresentativeOrdering::Maximum => states[place].rank() >= states[i].rank(),
            },
        count == states.len() ==> symmetry::is_extreme(states, ordering, place),
    decreases count,
{
    if count == 1 {
        0
    } else {
        let before = lemma_extreme_of_prefix(states, ordering, (count - 1) as nat);
        let better = match ordering {
            RepresentativeOrdering::Minimum => states[count - 1].rank() < states[before].rank(),
            RepresentativeOrdering::Maximum => states[count - 1].rank() > states[before].rank(),
        };
        if better {
            count - 1
        } else {
            before
        }
    }
}

/// Arbitrary finite-map reduction of any concrete parent basis.
#[verifier::reject_recursive_types(Parent)]
#[verifier::reject_recursive_types(M)]
pub struct GeneralBasis<Parent: Basis, M> where
    Parent::State: Bounded,
    M: SymmetryMap<Parent::State>,
 {
    parent: Parent,
    reducer: SymmetryReducer<Parent::State, M>,
    inside: bool,
    ordering: RepresentativeOrdering,
    states: Vec<Parent::State>,
    orbit_lengths: Vec<usize>,
    indices: StateTable<Parent::State, usize>,
    lookup: StateTable<Parent::State, GeneralSymmetryImage<Parent::State, M::Factor>>,
}

/// A table agrees with a map.
spec fn table_is<K: Bounded, V: Copy>(table: StateTable<K, V>, map: Map<K, V>) -> bool {
    forall|key: K| #[trigger] table.entry(key) == entry_of(map, key)
}

/// A table has the members of a set.
spec fn table_has<K: Bounded>(table: StateTable<K, bool>, set: Set<K>) -> bool {
    forall|key: K| (#[trigger] table.entry(key) is Some) == set.contains(key)
}

/// Whether all states of a list are rows of the parent basis.
fn all_rows<Parent: Basis>(parent: &Parent, states: &Vec<Parent::State>) -> (answer: bool)
    requires
        parent.wf(),
    ensures
        answer == all_among(states@, parent.spec_states()),
{
    let mut next: usize = 0;
    while next < states.len()
        invariant
            next <= states@.len(),
            parent.wf(),
            forall|i: int|
                0 <= i < next ==> parent.spec_states().contains(#[trigger] states@[i]),
        decreases states@.len() - next,
    {
        match parent.index(states[next]) {
            Ok(row) => {
                assert(parent.spec_states()[row as int] == states@[next as int]);
            },
            Err(_) => {
                return false;
            },
        }
        next += 1;
    }
    true
}

/// Marks the states of an orbit as met.
fn mark_orbit<State: Bounded>(
    visited: &mut StateTable<State, bool>,
    states: &Vec<State>,
    Ghost(before): Ghost<Set<State>>,
)
    requires
        old(visited).wf(),
        table_has(*old(visited), before),
    ensures
        final(visited).wf(),
        table_has(*final(visited), before.union(states@.to_set())),
{
    let mut next: usize = 0;
    assert(before.union(states@.take(0).to_set()) =~= before);
    while next < states.len()
        invariant
            next <= states@.len(),
            visited.wf(),
            table_has(*visited, before.union(states@.take(next as int).to_set())),
        decreases states@.len() - next,
    {
        let state: State = states[next];
        let ghost known = states@.take(next as int);
        visited.insert(state, true);
        next += 1;
        proof {
            let more = states@.take(next as int);
            assert(more =~= known.push(state));
            assert forall|key: State| (#[trigger] visited.entry(key) is Some) == before.union(
                more.to_set(),
            ).contains(key) by {
                if key == state {
                    assert(more[next - 1] == key);
                } else if more.contains(key) {
                    let at = more.index_of(key);
                    assert(known[at] == key);
                } else if known.contains(key) {
                    let at = known.index_of(key);
                    assert(more[at] == key);
                }
            }
        }
    }
    assert(states@.take(next as int) =~= states@);
}

/// Records the images of the states of an orbit.
fn record_orbit<State: Bounded, Phase: Copy>(
    lookup: &mut StateTable<State, GeneralSymmetryImage<State, Phase>>,
    states: &Vec<State>,
    place: usize,
    phases: &Vec<Phase>,
    Ghost(before): Ghost<Map<State, GeneralSymmetryImage<State, Phase>>>,
)
    requires
        old(lookup).wf(),
        table_is(*old(lookup), before),
        place < states@.len(),
        states@.no_duplicates(),
        phases@.len() == states@.len(),
    ensures
        final(lookup).wf(),
        table_is(
            *final(lookup),
            before.union_prefer_right(orbit_images(states@, place as int, phases@)),
        ),
{
    let ghost images = orbit_images(states@, place as int, phases@);
    let mut next: usize = 0;
    while next < states.len()
        invariant
            next <= states@.len(),
            lookup.wf(),
            place < states@.len(),
            states@.no_duplicates(),
            phases@.len() == states@.len(),
            images == orbit_images(states@, place as int, phases@),
            forall|key: State| #[trigger]
                lookup.entry(key) == if states@.take(next as int).contains(key) {
                    Some(images[key])
                } else {
                    entry_of(before, key)
                },
        decreases states@.len() - next,
    {
        let state: State = states[next];
        let ghost known = states@.take(next as int);
        proof {
            assert(states@.contains(state));
            assert(states@.index_of(state) == next);
        }
        lookup.insert(
            state,
            GeneralSymmetryImage {
                representative: states[place],
                phase: phases[next],
                orbit_size: states.len(),
            },
        );
        next += 1;
        proof {
            let more = states@.take(next as int);
            assert(more =~= known.push(state));
            assert forall|key: State| #[trigger] lookup.entry(key) == if more.contains(key) {
                Some(images[key])
            } else {
                entry_of(before, key)
            } by {
                if key == state {
                    assert(more[next - 1] == key);
                } else if more.contains(key) {
                    let at = more.index_of(key);
                    assert(known[at] == key);
                } else if known.contains(key) {
                    let at = known.index_of(key);
                    assert(more[at] == key);
                }
            }
        }
    }
    assert(states@.take(next as int) =~= states@);
}

/// The representatives in their final order.
fn arrange<Parent: Basis>(parent: &Parent, representatives: &Vec<(Parent::State, usize)>) -> (result: (
    Vec<Parent::State>,
    Vec<usize>,
)) where Parent::State: Bounded
    requires
        parent.wf(),
    ensures
        arranged(representatives@, parent.spec_states(), result.0@, result.1@),
        result.0@.len() == result.1@.len(),
{
    let ghost rows = parent.spec_states();
    let ghost reps = representatives@;
    let mut by_row: Vec<RowEntry<Parent::State>> = Vec::new();
    let mut by_label: Vec<LabelEntry<Parent::State>> = Vec::new();
    let mut all: bool = true;
    let mut next: usize = 0;
    while next < representatives.len()
        invariant
            next <= reps.len(),
            parent.wf(),
            rows == parent.spec_states(),
            reps == representatives@,
            by_label@.len() == next,
            forall|i: int| 0 <= i < next ==> #[trigger] by_label@[i] == with_labels(reps)[i],
            all == all_among(labels(reps).take(next as int), rows),
            all ==> by_row@.len() == next,
            all ==> forall|i: int|
                0 <= i < next ==> {
                    &&& (#[trigger] by_row@[i]).row < rows.len()
                    &&& rows[by_row@[i].row as int] == reps[i].0
                    &&& by_row@[i].state == reps[i].0
                    &&& by_row@[i].size == reps[i].1
                },
        decreases reps.len() - next,
    {
        let (state, size) = representatives[next];
        by_label.push(LabelEntry { state, size });
        proof {
            let part = labels(reps).take(next as int);
            let more = labels(reps).take(next + 1);
            assert forall|i: int| 0 <= i < part.len() implies part[i] == more[i] by {
            }
            assert(more[next as int] == state);
            if all_among(more, rows) {
                assert forall|i: int| 0 <= i < part.len() implies rows.contains(
                    #[trigger] part[i],
                ) by {
                    assert(rows.contains(more[i]));
                }
            }
            if all_among(part, rows) && rows.contains(state) {
                assert forall|i: int| 0 <= i < more.len() implies rows.contains(
                    #[trigger] more[i],
                ) by {
                    if i < next {
                        assert(rows.contains(part[i]));
                    }
                }
            }
        }
        match parent.index(state) {
            Ok(row) => {
                assert(rows[row as int] == state);
                by_row.push(RowEntry { row, state, size });
            },
            Err(_) => {
                assert(!rows.contains(labels(reps).take(next + 1)[next as int]));
                all = false;
            },
        }
        next += 1;
    }
    assert(labels(reps).take(next as int) =~= labels(reps));
    let mut states: Vec<Parent::State> = Vec::new();
    let mut sizes: Vec<usize> = Vec::new();
    if all {
        let entries: Vec<RowEntry<Parent::State>> = sort(&by_row);
        let mut at: usize = 0;
        while at < entries.len()
            invariant
                at <= entries@.len(),
                states@ == Seq::new(at as nat, |i: int| entries@[i].state),
                sizes@ == Seq::new(at as nat, |i: int| entries@[i].size),
            decreases entries@.len() - at,
        {
            states.push(entries[at].state);
            sizes.push(entries[at].size);
            at += 1;
            assert(states@ =~= Seq::new(at as nat, |i: int| entries@[i].state));
            assert(sizes@ =~= Seq::new(at as nat, |i: int| entries@[i].size));
        }
        assert(ordered::sorted(entries@));
        assert(rows_fit(reps, rows, by_row@));
        assert(listed_by_row(reps, rows, states@, sizes@));
    } else {
        let entries: Vec<LabelEntry<Parent::State>> = sort(&by_label);
        assert(by_label@ =~= with_labels(reps));
        let mut at: usize = 0;
        while at < entries.len()
            invariant
                at <= entries@.len(),
                states@ == Seq::new(at as nat, |i: int| entries@[i].state),
                sizes@ == Seq::new(at as nat, |i: int| entries@[i].size),
            decreases entries@.len() - at,
        {
            states.push(entries[at].state);
            sizes.push(entries[at].size);
            at += 1;
            assert(states@ =~= Seq::new(at as nat, |i: int| entries@[i].state));
            assert(sizes@ =~= Seq::new(at as nat, |i: int| entries@[i].size));
        }
        assert(ordered::sorted(entries@));
        assert(listed_by_label(reps, states@, sizes@));
    }
    (states, sizes)
}

/// Every member of a permuted list comes from the list.
pub proof fn lemma_listed_labels_differ<State: Bounded>(
    representatives: Seq<(State, usize)>,
    parent: Seq<State>,
    states: Seq<State>,
    sizes: Seq<usize>,
)
    requires
        arranged(representatives, parent, states, sizes),
        labels(representatives).no_duplicates(),
    ensures
        states.no_duplicates(),
        all_among(states, labels(representatives)),
{
    let list = labels(representatives);
    if all_among(list, parent) {
        let (entries, given) = choose|
            entries: Seq<RowEntry<State>>,
            given: Seq<RowEntry<State>>,
        |
            {
                &&& #[trigger] ordered::sorted(entries)
                &&& #[trigger] rows_fit(representatives, parent, given)
                &&& entries.to_multiset() == given.to_multiset()
                &&& states == Seq::new(entries.len(), |i: int| entries[i].state)
                &&& sizes == Seq::new(entries.len(), |i: int| entries[i].size)
            };
        assert forall|i: int, j: int| 0 <= i < given.len() && 0 <= j < given.len() && i
            != j implies given[i] != given[j] by {
            assert(list[i] != list[j]);
        }
        ordered::lemma_same_members(given, entries);
        assert forall|i: int| 0 <= i < states.len() implies list.contains(
            #[trigger] states[i],
        ) by {
            assert(entries.contains(entries[i]) && given.contains(entries[i]));
            let a = given.index_of(entries[i]);
            assert(list[a] == states[i]);
        }
        assert forall|i: int, j: int| 0 <= i < states.len() && 0 <= j < states.len() && i
            != j implies states[i] != states[j] by {
            assert(entries.contains(entries[i]) && entries.contains(entries[j]));
            assert(given.contains(entries[i]) && given.contains(entries[j]));
            let a = given.index_of(entries[i]);
            let b = given.index_of(entries[j]);
            assert(given[a] == entries[i] && given[b] == entries[j]);
            if states[i] == states[j] {
                assert(list[a] == list[b]);
            }
        }
    } else {
        let entries = choose|entries: Seq<LabelEntry<State>>|
            {
                &&& #[trigger] ordered::sorted(entries)
                &&& entries.to_multiset() == with_labels(representatives).to_multiset()
                &&& states == Seq::new(entries.len(), |i: int| entries[i].state)
                &&& sizes == Seq::new(entries.len(), |i: int| entries[i].size)
            };
        let given = with_labels(representatives);
        assert forall|i: int, j: int| 0 <= i < given.len() && 0 <= j < given.len() && i
            != j implies given[i] != given[j] by {
            assert(list[i] != list[j]);
        }
        ordered::lemma_same_members(given, entries);
        assert forall|i: int| 0 <= i < states.len() implies list.contains(
            #[trigger] states[i],
        ) by {
            assert(entries.contains(entries[i]) && given.contains(entries[i]));
            let a = given.index_of(entries[i]);
            assert(given[a] == entries[i]);
            assert(list[a] == states[i]);
        }
        assert forall|i: int, j: int| 0 <= i < states.len() && 0 <= j < states.len() && i
            != j implies states[i] != states[j] by {
            assert(entries.contains(entries[i]) && entries.contains(entries[j]));
            assert(given.contains(entries[i]) && given.contains(entries[j]));
            let a = given.index_of(entries[i]);
            let b = given.index_of(entries[j]);
            assert(given[a] == entries[i] && given[b] == entries[j]);
            if states[i] == states[j] {
                assert(list[a] == list[b]);
            }
        }
    }
}

/// Rows, orbit sizes and images of a reduced basis.
pub open spec fn reduction_holds<State: Bounded, M: SymmetryMap<State>>(
    parent: Seq<State>,
    generators: Seq<SymmetryGenerator<M>>,
    inside: bool,
    ordering: RepresentativeOrdering,
    states: Seq<State>,
    sizes: Seq<usize>,
    images: spec_fn(State) -> Option<GeneralSymmetryImage<State, M::Factor>>,
) -> bool {
    if generators.len() == 0 {
        &&& states == parent
        &&& sizes == Seq::new(parent.len(), |i: int| 1usize)
        &&& forall|state: State| #[trigger]
            images(state) == if parent.contains(state) {
                Some(
                    GeneralSymmetryImage {
                        representative: state,
                        phase: <M::Factor as PhaseFactor>::spec_one(),
                        orbit_size: 1,
                    },
                )
            } else {
                None
            }
    } else {
        match reduced(parent, generators, inside, ordering, parent.len()) {
            Err(_) => false,
            Ok(whole) => {
                &&& arranged(whole.representatives, parent, states, sizes)
                &&& forall|state: State| #[trigger] images(state) == entry_of(whole.lookup, state)
            },
        }
    }
}

/// Why a reduction is refused, if it is.
pub open spec fn reduction_error<State: Bounded, M: SymmetryMap<State>>(
    parent: Seq<State>,
    generators: Seq<SymmetryGenerator<M>>,
    inside: bool,
    ordering: RepresentativeOrdering,
) -> Option<QmbedError> {
    if generators.len() == 0 {
        None
    } else {
        match reduced(parent, generators, inside, ordering, parent.len()) {
            Err(error) => Some(error),
            Ok(_) => None,
        }
    }
}

/// Destinations replaced by their representatives.
pub open spec fn reduced_transitions<State, P, Q>(
    transitions: Seq<(State, Seq<Factor<P>>)>,
    images: spec_fn(State) -> Option<GeneralSymmetryImage<State, Q>>,
    source_orbit: usize,
) -> Seq<(State, Seq<Factor<EitherPhase<P, Q>>>)>
    decreases transitions.len(),
{
    if transitions.len() == 0 {
        Seq::empty()
    } else {
        let before = reduced_transitions(transitions.drop_last(), images, source_orbit);
        let (target, factors) = transitions.last();
        match images(target) {
            None => before,
            Some(image) => before.push(
                (
                    image.representative,
                    basis::left_factors::<P, Q>(factors).push(
                        Factor::Reduced(
                            ReductionFactor {
                                source_orbit,
                                target_orbit: image.orbit_size,
                                phase: EitherPhase::Right(image.phase),
                            },
                        ),
                    ),
                ),
            ),
        }
    }
}

/// A failed seed ends the reduction.
proof fn lemma_reduced_fails<State: Bounded, M: SymmetryMap<State>>(
    parent: Seq<State>,
    generators: Seq<SymmetryGenerator<M>>,
    inside: bool,
    ordering: RepresentativeOrdering,
    count: nat,
    later: nat,
)
    requires
        count <= later,
        reduced(parent, generators, inside, ordering, count) is Err,
    ensures
        reduced(parent, generators, inside, ordering, later) == reduced(
            parent,
            generators,
            inside,
            ordering,
            count,
        ),
    decreases later,
{
    if count < later {
        lemma_reduced_fails(parent, generators, inside, ordering, count, (later - 1) as nat);
    }
}

/// Numbers of the states of a list; the last one counts.
fn number_states<State: Bounded>(states: &Vec<State>) -> (indices: StateTable<State, usize>)
    ensures
        indices.wf(),
        forall|state: State|
            match #[trigger] indices.entry(state) {
                Some(index) => index < states@.len() && states@[index as int] == state,
                None => !states@.contains(state),
            },
{
    let mut indices: StateTable<State, usize> = StateTable::new();
    let mut next: usize = 0;
    while next < states.len()
        invariant
            next <= states@.len(),
            indices.wf(),
            forall|state: State|
                match #[trigger] indices.entry(state) {
                    Some(index) => index < next && states@[index as int] == state,
                    None => !states@.take(next as int).contains(state),
                },
        decreases states@.len() - next,
    {
        let ghost known = states@.take(next as int);
        let state: State = states[next];
        indices.insert(state, next);
        next += 1;
        proof {
            let more = states@.take(next as int);
            assert forall|other: State|
                match #[trigger] indices.entry(other) {
                    Some(index) => index < next && states@[index as int] == other,
                    None => !more.contains(other),
                } by {
                if more.contains(other) && other != state {
                    let at = more.index_of(other);
                    assert(known[at] == other);
                }
            }
        }
    }
    assert(states@.take(next as int) =~= states@);
    indices
}

impl<Parent: Basis, M> GeneralBasis<Parent, M> where
    Parent::State: Bounded,
    M: SymmetryMap<Parent::State>,
 {
    pub closed spec fn spec_parent(&self) -> Parent {
        self.parent
    }

    pub closed spec fn spec_generators(&self) -> Seq<SymmetryGenerator<M>> {
        self.reducer.spec_generators()
    }

    /// Whether every orbit has to stay in the parent basis.
    pub closed spec fn spec_inside(&self) -> bool {
        self.inside
    }

    pub closed spec fn spec_ordering(&self) -> RepresentativeOrdering {
        self.ordering
    }

    pub closed spec fn spec_rows(&self) -> Seq<Parent::State> {
        self.states@
    }

    pub closed spec fn spec_orbit_lengths(&self) -> Seq<usize> {
        self.orbit_lengths@
    }

    /// Image of a physical state.
    pub closed spec fn spec_image(&self, state: Parent::State) -> Option<
        GeneralSymmetryImage<Parent::State, M::Factor>,
    > {
        self.lookup.entry(state)
    }

    /// Row of a representative.
    pub closed spec fn spec_row(&self, state: Parent::State) -> Option<usize> {
        self.indices.entry(state)
    }

    /// Parts that go together.
    pub closed spec fn valid(&self) -> bool {
        &&& self.parent.wf()
        &&& self.reducer.ready()
        &&& self.indices.wf()
        &&& self.lookup.wf()
        &&& self.states@.len() == self.orbit_lengths@.len()
        &&& forall|state: Parent::State|
            match #[trigger] self.indices.entry(state) {
                Some(index) => index < self.states@.len() && self.states@[index as int] == state,
                None => !self.states@.contains(state),
            }
        &&& reduction_holds(
            self.parent.spec_states(),
            self.reducer.spec_generators(),
            self.inside,
            self.ordering,
            self.states@,
            self.orbit_lengths@,
            |state: Parent::State| self.spec_image(state),
        )
        &&& self.reducer.spec_generators().len() > 0 ==> orbits_counted(
            self.parent.spec_states(),
            self.reducer.spec_generators(),
            self.inside,
            self.ordering,
            self.parent.spec_states().len(),
        )
    }

    /// A reduced basis is what its parent and its generators make it.
    pub proof fn lemma_valid(&self)
        requires
            self.valid(),
        ensures
            self.spec_parent().wf(),
            generators_of(*self),
            self.spec_rows().len() == self.spec_orbit_lengths().len(),
            forall|state: Parent::State|
                match #[trigger] self.spec_row(state) {
                    Some(index) => {
                        &&& index < self.spec_rows().len()
                        &&& self.spec_rows()[index as int] == state
                    },
                    None => !self.spec_rows().contains(state),
                },
            reduction_holds(
                self.spec_parent().spec_states(),
                self.spec_generators(),
                self.spec_inside(),
                self.spec_ordering(),
                self.spec_rows(),
                self.spec_orbit_lengths(),
                |state: Parent::State| self.spec_image(state),
            ),
            self.spec_generators().len() > 0 ==> orbits_counted(
                self.spec_parent().spec_states(),
                self.spec_generators(),
                self.spec_inside(),
                self.spec_ordering(),
                self.spec_parent().spec_states().len(),
            ),
    {
    }

    /// Distinct rows where the maps keep states apart.
    pub proof fn lemma_rows_differ(&self)
        requires
            self.valid(),
            self.spec_parent().faithful(),
            all_injective(self.spec_generators()),
        ensures
            self.spec_rows().no_duplicates(),
    {
        let parent = self.parent.spec_states();
        let gens = self.reducer.spec_generators();
        self.parent.states_distinct();
        if gens.len() > 0 {
            let whole = reduced(parent, gens, self.inside, self.ordering, parent.len())->Ok_0;
            lemma_representatives_differ(parent, gens, self.inside, self.ordering, parent.len());
            lemma_listed_labels_differ(
                whole.representatives,
                parent,
                self.states@,
                self.orbit_lengths@,
            );
        }
    }

    fn from_reducer_impl(
        parent: Parent,
        reducer: SymmetryReducer<Parent::State, M>,
        inside: bool,
        ordering: RepresentativeOrdering,
    ) -> (result: Result<Self>)
        requires
            parent.wf(),
            reducer.ready(),
        ensures
            match result {
                Ok(reduced_basis) => {
                    &&& reduction_error(
                        parent.spec_states(),
                        reducer.spec_generators(),
                        inside,
                        ordering,
                    ) is None
                    &&& reduced_basis.valid()
                    &&& reduced_basis.spec_parent() == parent
                    &&& reduced_basis.spec_generators() == reducer.spec_generators()
                    &&& reduced_basis.spec_inside() == inside
                    &&& reduced_basis.spec_ordering() == ordering
                },
                Err(error) => reduction_error(
                    parent.spec_states(),
                    reducer.spec_generators(),
                    inside,
                    ordering,
                ) == Some(error),
            },
    {
        let ghost rows = parent.spec_states();
        let ghost gens = reducer.spec_generators();
        let length: usize = parent.len();
        let mut lookup: StateTable<
            Parent::State,
            GeneralSymmetryImage<Parent::State, M::Factor>,
        > = StateTable::new();
        if reducer.generators() == 0 {
            let mut states: Vec<Parent::State> = Vec::new();
            let mut orbit_lengths: Vec<usize> = Vec::new();
            let phase: M::Factor = <M::Factor as PhaseFactor>::one();
            let mut next: usize = 0;
            while next < length
                invariant
                    next <= length,
                    length == rows.len(),
                    rows == parent.spec_states(),
                    parent.wf(),
                    lookup.wf(),
                    phase == <M::Factor as PhaseFactor>::spec_one(),
                    states@ == rows.take(next as int),
                    orbit_lengths@ == Seq::new(next as nat, |i: int| 1usize),
                    forall|state: Parent::State| #[trigger]
                        lookup.entry(state) == if rows.take(next as int).contains(state) {
                            Some(
                                GeneralSymmetryImage { representative: state, phase, orbit_size: 1 },
                            )
                        } else {
                            None
                        },
                decreases length - next,
            {
                let state: Parent::State = match parent.state(next) {
                    Ok(state) => state,
                    Err(error) => {
                        return Err(error);
                    },
                };
                let ghost known = rows.take(next as int);
                states.push(state);
                orbit_lengths.push(1);
                lookup.insert(
                    state,
                    GeneralSymmetryImage { representative: state, phase, orbit_size: 1 },
                );
                next += 1;
                proof {
                    let more = rows.take(next as int);
                    assert(more =~= known.push(state));
                    assert(orbit_lengths@ =~= Seq::new(next as nat, |i: int| 1usize));
                    assert forall|other: Parent::State| #[trigger] lookup.entry(other)
                        == if more.contains(other) {
                        Some(GeneralSymmetryImage { representative: other, phase, orbit_size: 1 })
                    } else {
                        None
                    } by {
                        if other == state {
                            assert(more[next - 1] == other);
                        } else if more.contains(other) {
                            let at = more.index_of(other);
                            assert(known[at] == other);
                        } else if known.contains(other) {
                            let at = known.index_of(other);
                            assert(more[at] == other);
                        }
                    }
                }
            }
            assert(rows.take(next as int) =~= rows);
            let indices: StateTable<Parent::State, usize> = number_states(&states);
            return Ok(
                GeneralBasis {
                    parent,
                    reducer,
                    inside,
                    ordering,
                    states,
                    orbit_lengths,
                    indices,
                    lookup,
                },
            );
        }
        let mut visited: StateTable<Parent::State, bool> = StateTable::new();
        let mut representatives: Vec<(Parent::State, usize)> = Vec::new();
        let ghost mut so_far: Reduction<Parent::State, M::Factor> = nothing_reduced();
        let mut next: usize = 0;
        assert(representatives@ =~= so_far.representatives);
        while next < length
            invariant
                next <= length,
                length == rows.len(),
                rows == parent.spec_states(),
                gens == reducer.spec_generators(),
                gens.len() > 0,
                parent.wf(),
                reducer.ready(),
                lookup.wf(),
                visited.wf(),
                reduced(rows, gens, inside, ordering, next as nat) == Ok::<
                    Reduction<Parent::State, M::Factor>,
                    QmbedError,
                >(so_far),
                orbits_counted(rows, gens, inside, ordering, next as nat),
                representatives@ == so_far.representatives,
                table_has(visited, so_far.visited),
                table_is(lookup, so_far.lookup),
            decreases length - next,
        {
            let seed: Parent::State = match parent.state(next) {
                Ok(seed) => seed,
                Err(error) => {
                    return Err(error);
                },
            };
            let ghost step_result = reduce_seed(so_far, seed, rows, gens, inside, ordering);
            proof {
                assert(reduced(rows, gens, inside, ordering, (next + 1) as nat) == step_result);
                if step_result is Err {
                    lemma_reduced_fails(
                        rows,
                        gens,
                        inside,
                        ordering,
                        (next + 1) as nat,
                        rows.len(),
                    );
                }
            }
            if visited.get(seed).is_none() {
                let trace: SymmetryTrace<Parent::State, M::Factor> = match reducer.trace(seed) {
                    Ok(trace) => trace,
                    Err(error) => {
                        return Err(error);
                    },
                };
                let ghost known = trace@;
                let members: usize = trace.states().len();
                assert(orbits_counted(rows, gens, inside, ordering, (next + 1) as nat));
                if inside && !all_rows(&parent, trace.states()) {
                    return Err(
                        QmbedError::IncompatibleSymmetry("a symmetry map leaves the parent basis"),
                    );
                }
                mark_orbit(&mut visited, trace.states(), Ghost(so_far.visited));
                if trace.compatible() {
                    let place: usize = find_extreme(trace.states(), ordering);
                    let phases: Vec<M::Factor> = match <M::Factor as PhaseFactor>::relative(
                        trace.coefficients(),
                        place,
                    ) {
                        Some(phases) => phases,
                        None => {
                            return Err(
                                QmbedError::IncompatibleSymmetry(
                                    "symmetry maps do not define a one-dimensional orbit sector",
                                ),
                            );
                        },
                    };
                    record_orbit(
                        &mut lookup,
                        trace.states(),
                        place,
                        &phases,
                        Ghost(so_far.lookup),
                    );
                    representatives.push((trace.states()[place], members));
                }
                proof {
                    so_far = step_result->Ok_0;
                }
            } else {
                assert(orbits_counted(rows, gens, inside, ordering, (next + 1) as nat));
            }
            next += 1;
        }
        let (states, orbit_lengths) = arrange(&parent, &representatives);
        let indices: StateTable<Parent::State, usize> = number_states(&states);
        Ok(
            GeneralBasis {
                parent,
                reducer,
                inside,
                ordering,
                states,
                orbit_lengths,
                indices,
                lookup,
            },
        )
    }
}

impl<Parent: Basis, M> GeneralBasis<Parent, M> where
    Parent::State: Bounded,
    M: SymmetryMap<Parent::State>,
 {
    /// The part of a parent basis that lies in a symmetry sector.
    pub fn new(parent: Parent, reducer: SymmetryReducer<Parent::State, M>) -> (result: Result<
        Self,
    >)
        requires
            parent.wf(),
            reducer.ready(),
        ensures
            match result {
                Ok(reduced_basis) => {
                    &&& reduction_error(
                        parent.spec_states(),
                        reducer.spec_generators(),
                        true,
                        RepresentativeOrdering::Minimum,
                    ) is None
                    &&& reduced_basis.valid()
                    &&& reduced_basis.spec_parent() == parent
                    &&& reduced_basis.spec_generators() == reducer.spec_generators()
                    &&& reduced_basis.spec_inside() == true
                    &&& reduced_basis.spec_ordering() == RepresentativeOrdering::Minimum
                },
                Err(error) => reduction_error(
                    parent.spec_states(),
                    reducer.spec_generators(),
                    true,
                    RepresentativeOrdering::Minimum,
                ) == Some(error),
            },
    {
        Self::from_reducer(parent, reducer)
    }

    /// A reduced basis from a reusable reducer; orbits must stay in the parent basis.
    pub fn from_reducer(parent: Parent, reducer: SymmetryReducer<Parent::State, M>) -> (result: Result<
        Self,
    >)
        requires
            parent.wf(),
            reducer.ready(),
        ensures
            match result {
                Ok(reduced_basis) => {
                    &&& reduction_error(
                        parent.spec_states(),
                        reducer.spec_generators(),
                        true,
                        RepresentativeOrdering::Minimum,
                    ) is None
                    &&& reduced_basis.valid()
                    &&& reduced_basis.spec_parent() == parent
                    &&& reduced_basis.spec_generators() == reducer.spec_generators()
                    &&& reduced_basis.spec_inside() == true
                    &&& reduced_basis.spec_ordering() == RepresentativeOrdering::Minimum
                },
                Err(error) => reduction_error(
                    parent.spec_states(),
                    reducer.spec_generators(),
                    true,
                    RepresentativeOrdering::Minimum,
                ) == Some(error),
            },
    {
        Self::from_reducer_with_ordering(parent, reducer, RepresentativeOrdering::Minimum)
    }

    /// A reduced basis with an explicit choice of the representatives.
    pub fn from_reducer_with_ordering(parent: Parent, reducer: SymmetryReducer<Parent::State, M>, ordering: RepresentativeOrdering) -> (result: Result<
        Self,
    >)
        requires
            parent.wf(),
            reducer.ready(),
        ensures
            match result {
                Ok(reduced_basis) => {
                    &&& reduction_error(
                        parent.spec_states(),
                        reducer.spec_generators(),
                        true,
                        ordering,
                    ) is None
                    &&& reduced_basis.valid()
                    &&& reduced_basis.spec_parent() == parent
                    &&& reduced_basis.spec_generators() == reducer.spec_generators()
                    &&& reduced_basis.spec_inside() == true
                    &&& reduced_basis.spec_ordering() == ordering
                },
                Err(error) => reduction_error(
                    parent.spec_states(),
                    reducer.spec_generators(),
                    true,
                    ordering,
                ) == Some(error),
            },
    {
        Self::from_reducer_impl(parent, reducer, true, ordering)
    }

    /// Symmetry vectors whose seed states come from the parent basis.
    ///
    /// The orbit of a seed may contain states that the parent basis does not list;
    /// the parent still supplies the local operators, which must then be defined
    /// on all states of the orbits.
    pub fn from_orbit_seeds(parent: Parent, reducer: SymmetryReducer<Parent::State, M>) -> (result: Result<
        Self,
    >)
        requires
            parent.wf(),
            reducer.ready(),
        ensures
            match result {
                Ok(reduced_basis) => {
                    &&& reduction_error(
                        parent.spec_states(),
                        reducer.spec_generators(),
                        false,
                        RepresentativeOrdering::Minimum,
                    ) is None
                    &&& reduced_basis.valid()
                    &&& reduced_basis.spec_parent() == parent
                    &&& reduced_basis.spec_generators() == reducer.spec_generators()
                    &&& reduced_basis.spec_inside() == false
                    &&& reduced_basis.spec_ordering() == RepresentativeOrdering::Minimum
                },
                Err(error) => reduction_error(
                    parent.spec_states(),
                    reducer.spec_generators(),
                    false,
                    RepresentativeOrdering::Minimum,
                ) == Some(error),
            },
    {
        Self::from_orbit_seeds_with_ordering(parent, reducer, RepresentativeOrdering::Minimum)
    }

    /// Symmetry vectors of seed states, with an explicit choice of the representatives.
    pub fn from_orbit_seeds_with_ordering(parent: Parent, reducer: SymmetryReducer<Parent::State, M>, ordering: RepresentativeOrdering) -> (result: Result<
        Self,
    >)
        requires
            parent.wf(),
            reducer.ready(),
        ensures
            match result {
                Ok(reduced_basis) => {
                    &&& reduction_error(
                        parent.spec_states(),
                        reducer.spec_generators(),
                        false,
                        ordering,
                    ) is None
                    &&& reduced_basis.valid()
                    &&& reduced_basis.spec_parent() == parent
                    &&& reduced_basis.spec_generators() == reducer.spec_generators()
                    &&& reduced_basis.spec_inside() == false
                    &&& reduced_basis.spec_ordering() == ordering
                },
                Err(error) => reduction_error(
                    parent.spec_states(),
                    reducer.spec_generators(),
                    false,
                    ordering,
                ) == Some(error),
            },
    {
        Self::from_reducer_impl(parent, reducer, false, ordering)
    }

    /// The parent of a sector keeps its invariant.
    pub proof fn lemma_parent_ready(&self)
        requires
            self.valid(),
        ensures
            self.spec_parent().wf(),
    {
    }

    /// The parent basis.
    pub fn parent(&self) -> (parent: &Parent)
        ensures
            *parent == self.spec_parent(),
    {
        &self.parent
    }

    /// The row of a representative.
    pub fn row(&self, state: Parent::State) -> (result: Result<usize>)
        requires
            self.valid(),
        ensures
            match result {
                Ok(row) => {
                    &&& self.spec_row(state) == Some(row)
                    &&& row < self.spec_rows().len()
                    &&& self.spec_rows()[row as int] == state
                },
                Err(error) => {
                    &&& self.spec_row(state) is None
                    &&& !self.spec_rows().contains(state)
                    &&& error == QmbedError::StateNotInBasis
                },
            },
    {
        match self.indices.get(state) {
            Some(row) => Ok(row),
            None => Err(QmbedError::StateNotInBasis),
        }
    }

    /// The maps and their sectors.
    pub fn reducer(&self) -> (reducer: &SymmetryReducer<Parent::State, M>)
        ensures
            reducer.spec_generators() == self.spec_generators(),
    {
        &self.reducer
    }

    /// The state that stands for the orbit of a physical state.
    pub fn representative(&self, state: Parent::State) -> (result: Result<Parent::State>)
        requires
            self.valid(),
        ensures
            match result {
                Ok(representative) => {
                    &&& self.spec_image(state) is Some
                    &&& representative == self.spec_image(state)->0.representative
                },
                Err(error) => {
                    &&& self.spec_image(state) is None
                    &&& error == QmbedError::StateNotInBasis
                },
            },
    {
        match self.lookup.get(state) {
            Some(image) => Ok(image.representative),
            None => Err(QmbedError::StateNotInBasis),
        }
    }

    /// Number of states in the orbit of a physical state.
    pub fn orbit_size(&self, state: Parent::State) -> (result: Result<usize>)
        requires
            self.valid(),
        ensures
            match result {
                Ok(size) => {
                    &&& self.spec_image(state) is Some
                    &&& size == self.spec_image(state)->0.orbit_size
                },
                Err(error) => {
                    &&& self.spec_image(state) is None
                    &&& error == QmbedError::StateNotInBasis
                },
            },
    {
        match self.lookup.get(state) {
            Some(image) => Ok(image.orbit_size),
            None => Err(QmbedError::StateNotInBasis),
        }
    }

    /// Normalized coefficient of a parent state in its reduced representative: the
    /// phase divided by the root of the orbit size, as the pair of both.
    pub fn symmetry_amplitude(&self, state: Parent::State) -> (result: Result<(M::Factor, usize)>)
        requires
            self.valid(),
        ensures
            match result {
                Ok((phase, size)) => {
                    &&& self.spec_image(state) is Some
                    &&& phase == self.spec_image(state)->0.phase
                    &&& size == self.spec_image(state)->0.orbit_size
                },
                Err(error) => {
                    &&& self.spec_image(state) is None
                    &&& error == QmbedError::StateNotInBasis
                },
            },
    {
        match self.lookup.get(state) {
            Some(image) => Ok((image.phase, image.orbit_size)),
            None => Err(QmbedError::StateNotInBasis),
        }
    }

    /// Size of the orbit of a row.
    pub fn orbit_size_at(&self, state: Parent::State) -> (result: Result<usize>)
        requires
            self.valid(),
        ensures
            match result {
                Ok(size) => {
                    &&& self.spec_row(state) is Some
                    &&& size == self.spec_orbit_lengths()[self.spec_row(state)->0 as int]
                },
                Err(error) => {
                    &&& self.spec_row(state) is None
                    &&& error == QmbedError::StateNotInBasis
                },
            },
    {
        match self.indices.get(state) {
            Some(index) => Ok(self.orbit_lengths[index]),
            None => Err(QmbedError::StateNotInBasis),
        }
    }

    /// Representative, phase and orbit size of a physical state, if it belongs to
    /// the sector.
    pub fn image_of(&self, state: Parent::State) -> (result: Result<
        Option<ReductionImage<Parent::State, M::Factor>>,
    >)
        requires
            self.valid(),
        ensures
            match result {
                Ok(None) => self.spec_image(state) is None,
                Ok(Some(image)) => {
                    &&& self.spec_image(state) is Some
                    &&& self.spec_image(state)->0.orbit_size > 0
                    &&& image.spec_representative() == self.spec_image(state)->0.representative
                    &&& image.spec_phase() == self.spec_image(state)->0.phase
                    &&& image.spec_orbit_size() == self.spec_image(state)->0.orbit_size
                },
                Err(error) => {
                    &&& self.spec_image(state) is Some
                    &&& self.spec_image(state)->0.orbit_size == 0
                    &&& error == QmbedError::InternalState(
                        "a reduction image requires a positive orbit and finite phase",
                    )
                },
            },
    {
        match self.lookup.get(state) {
            None => Ok(None),
            Some(image) => match ReductionImage::new(
                image.representative,
                image.phase,
                image.orbit_size,
            ) {
                Ok(reduced_image) => Ok(Some(reduced_image)),
                Err(error) => Err(error),
            },
        }
    }

    /// Representative of a target and the amplitude that the reduction adds.
    pub fn reduce_transition(&self, state: Parent::State, source_orbit_size: usize) -> (result:
        Option<(Parent::State, ReductionFactor<M::Factor>)>)
        requires
            self.valid(),
        ensures
            result == match self.spec_image(state) {
                None => None,
                Some(image) => Some(
                    (
                        image.representative,
                        ReductionFactor {
                            source_orbit: source_orbit_size,
                            target_orbit: image.orbit_size,
                            phase: image.phase,
                        },
                    ),
                ),
            },
    {
        match self.lookup.get(state) {
            None => None,
            Some(image) => Some(
                (
                    image.representative,
                    ReductionFactor {
                        source_orbit: source_orbit_size,
                        target_orbit: image.orbit_size,
                        phase: image.phase,
                    },
                ),
            ),
        }
    }

    /// Row of the representative of a target and the amplitude that the reduction adds.
    pub fn index_transition(&self, state: Parent::State, source_orbit_size: usize) -> (result:
        Result<Option<(usize, ReductionFactor<M::Factor>)>>)
        requires
            self.valid(),
        ensures
            match self.spec_image(state) {
                None => result == Ok::<
                    Option<(usize, ReductionFactor<M::Factor>)>,
                    QmbedError,
                >(None),
                Some(image) => match self.spec_row(image.representative) {
                    None => result == Err::<
                        Option<(usize, ReductionFactor<M::Factor>)>,
                        QmbedError,
                    >(QmbedError::StateNotInBasis),
                    Some(row) => result == Ok::<
                        Option<(usize, ReductionFactor<M::Factor>)>,
                        QmbedError,
                    >(
                        Some(
                            (
                                row,
                                ReductionFactor {
                                    source_orbit: source_orbit_size,
                                    target_orbit: image.orbit_size,
                                    phase: image.phase,
                                },
                            ),
                        ),
                    ),
                },
            },
    {
        match self.reduce_transition(state, source_orbit_size) {
            None => Ok(None),
            Some((representative, factor)) => match self.indices.get(representative) {
                Some(row) => Ok(Some((row, factor))),
                None => Err(QmbedError::StateNotInBasis),
            },
        }
    }
}

impl<Parent: Basis, M> Basis for GeneralBasis<Parent, M> where
    Parent::State: Bounded,
    M: SymmetryMap<Parent::State>,
 {
    type State = Parent::State;

    type Phase = EitherPhase<Parent::Phase, M::Factor>;

    open spec fn wf(&self) -> bool {
        self.valid()
    }

    open spec fn spec_states(&self) -> Seq<Parent::State> {
        self.spec_rows()
    }

    open spec fn acts_on(&self, state: Parent::State) -> bool {
        self.spec_parent().acts_on(state)
    }

    open spec fn spec_transitions(
        &self,
        state: Parent::State,
        operator: Seq<char>,
        sites: Seq<usize>,
    ) -> core::result::Result<
        Seq<(Parent::State, Seq<Factor<EitherPhase<Parent::Phase, M::Factor>>>)>,
        QmbedError,
    > {
        match self.spec_row(state) {
            None => Err(QmbedError::StateNotInBasis),
            Some(row) => match self.spec_parent().spec_transitions(state, operator, sites) {
                Err(error) => Err(error),
                Ok(transitions) => Ok(
                    reduced_transitions(
                        transitions,
                        |target: Parent::State| self.spec_image(target),
                        self.spec_orbit_lengths()[row as int],
                    ),
                ),
            },
        }
    }

    open spec fn spec_preserves(&self, operator: Seq<char>) -> core::result::Result<
        bool,
        QmbedError,
    > {
        self.spec_parent().spec_preserves(operator)
    }

    open spec fn spec_preserves_on_sites(
        &self,
        operator: Seq<char>,
        sites: Seq<usize>,
    ) -> core::result::Result<bool, QmbedError> {
        self.spec_parent().spec_preserves_on_sites(operator, sites)
    }

    open spec fn faithful(&self) -> bool {
        &&& self.spec_parent().faithful()
        &&& all_injective(self.spec_generators())
        &&& forall|i: int|
            0 <= i < self.spec_rows().len() ==> self.spec_parent().acts_on(
                #[trigger] self.spec_rows()[i],
            )
    }

    proof fn states_distinct(&self) {
        self.lemma_rows_differ();
    }

    proof fn acts_on_states(&self, index: int) {
    }

    fn len(&self) -> (length: usize) {
        self.states.len()
    }

    fn state(&self, index: usize) -> (result: Result<Parent::State>) {
        if index < self.states.len() {
            Ok(self.states[index])
        } else {
            Err(QmbedError::StateNotInBasis)
        }
    }

    fn index(&self, state: Parent::State) -> (result: Result<usize>) {
        match self.indices.get(state) {
            Some(index) => Ok(index),
            None => Err(QmbedError::StateNotInBasis),
        }
    }

    fn apply_local_transitions(&self, state: Parent::State, operator: &str, sites: &[usize]) -> (result:
        Result<Transitions<Parent::State, EitherPhase<Parent::Phase, M::Factor>>>) {
        let source_orbit: usize = match self.orbit_size_at(state) {
            Ok(size) => size,
            Err(error) => {
                return Err(error);
            },
        };
        let branches: Transitions<Parent::State, Parent::Phase> =
            match self.parent.apply_local_transitions(state, operator, sites) {
            Ok(branches) => branches,
            Err(error) => {
                return Err(error);
            },
        };
        let ghost list = basis::transitions_view(branches@);
        let ghost images = |target: Parent::State| self.spec_image(target);
        let mut transitions: Transitions<
            Parent::State,
            EitherPhase<Parent::Phase, M::Factor>,
        > = Vec::new();
        let mut next: usize = 0;
        assert(list.take(0) =~= Seq::empty());
        assert(basis::transitions_view(transitions@) =~= Seq::empty());
        while next < branches.len()
            invariant
                next <= branches@.len(),
                self.valid(),
                list == basis::transitions_view(branches@),
                images == (|target: Parent::State| self.spec_image(target)),
                basis::transitions_view(transitions@) == reduced_transitions(
                    list.take(next as int),
                    images,
                    source_orbit,
                ),
            decreases branches@.len() - next,
        {
            let ghost before = transitions@;
            proof {
                assert(list.take(next + 1).drop_last() =~= list.take(next as int));
                assert(list[next as int] == (branches@[next as int].0, branches@[next as int].1@));
            }
            match self.reduce_transition(branches[next].0, source_orbit) {
                None => {},
                Some((representative, factor)) => {
                    let mut amplitude: Vec<Factor<EitherPhase<Parent::Phase, M::Factor>>> =
                        Vec::new();
                    basis::append_left(&mut amplitude, &branches[next].1);
                    let ghost lifted = amplitude@;
                    amplitude.push(
                        Factor::Reduced(
                            ReductionFactor {
                                source_orbit: factor.source_orbit,
                                target_orbit: factor.target_orbit,
                                phase: EitherPhase::Right(factor.phase),
                            },
                        ),
                    );
                    proof {
                        assert(lifted =~= basis::left_factors::<Parent::Phase, M::Factor>(
                            branches@[next as int].1@,
                        ));
                    }
                    transitions.push((representative, amplitude));
                    proof {
                        assert(basis::transitions_view(transitions@) =~= basis::transitions_view(
                            before,
                        ).push((representative, amplitude@)));
                    }
                },
            }
            next += 1;
        }
        assert(list.take(next as int) =~= list);
        Ok(transitions)
    }

    fn operator_preserves_particle_sector_on_sites(
        &self,
        operator: &str,
        sites: &[usize],
    ) -> (result: Result<bool>) {
        self.parent.operator_preserves_particle_sector_on_sites(operator, sites)
    }

    fn operator_preserves_particle_sector(&self, operator: &str) -> (result: Result<bool>) {
        self.parent.operator_preserves_particle_sector(operator)
    }
}

/// Lattice maps keep packed states apart.
pub proof fn law_lattice_map_injective(generator: SymmetryGenerator<LatticeSymmetryMap>)
    requires
        generator.map.wf(),
    ensures
        injective::<u128, LatticeSymmetryMap>(generator),
{
    let map = generator.map;
    map.lemma_parts();
    let base = map.spec_states_per_site();
    let sites = map.spec_sites();
    assert forall|left: u128, right: u128|
        #![trigger symmetry::step(generator, left), symmetry::step(generator, right)]
        match (symmetry::step(generator, left), symmetry::step(generator, right)) {
            (Ok((a, _)), Ok((b, _))) => a == b ==> left == right,
            _ => true,
        } by {
        if symmetry::step(generator, left) is Ok && symmetry::step(generator, right) is Ok {
            lattice_map::lemma_placed(
                map.spec_destinations(),
                map.spec_locals(),
                base,
                left as nat,
                sites,
            );
            lattice_map::lemma_placed(
                map.spec_destinations(),
                map.spec_locals(),
                base,
                right as nat,
                sites,
            );
            if symmetry::step(generator, left)->Ok_0.0 == symmetry::step(generator, right)->Ok_0.0 {
                map.law_images_differ(left as nat, right as nat);
            }
        }
    }
}

/// Every map of a reduced basis keeps its invariant.
pub open spec fn generators_of<Parent: Basis, M>(reduced_basis: GeneralBasis<Parent, M>) -> bool where
    Parent::State: Bounded,
    M: SymmetryMap<Parent::State>,
 {
    symmetry::generators_ready(reduced_basis.spec_generators())
}

} // verus!

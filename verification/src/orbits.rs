//! Orbits of packed states under a finite group with one-dimensional phases.

use std::collections::{HashMap, HashSet};

use vstd::prelude::*;

use crate::error::{QmbedError, Result};
use crate::ordered;
use crate::ordered::Ranked;
use crate::weights;

verus! {

broadcast use vstd::std_specs::hash::group_hash_axioms;

/// A finite group acting on packed states, each element with a phase.
///
/// A phase is a number of steps of a fixed fraction of the full circle.
pub trait OrbitAction {
    /// The states on which the group acts.
    spec fn domain(&self, state: u128) -> bool;

    /// Number of group elements.
    spec fn order(&self) -> nat;

    /// The state to which an element sends a state.
    spec fn image(&self, state: u128, element: nat) -> u128;

    /// The phase steps that an element adds to a state.
    spec fn steps(&self, state: u128, element: nat) -> nat;

    /// Number of group elements.
    fn count(&self) -> (count: usize)
        ensures
            count == self.order(),
            count > 0,
    ;

    /// Image and phase steps of a state under an element.
    fn act(&self, state: u128, element: usize) -> (result: (u128, usize))
        requires
            self.domain(state),
            element < self.order(),
        ensures
            result.0 == self.image(state, element as nat),
            result.1 == self.steps(state, element as nat),
    ;

    /// Images stay in the domain.
    proof fn image_in_domain(&self, state: u128, element: nat)
        requires
            self.domain(state),
            element < self.order(),
        ensures
            self.domain(self.image(state, element)),
    ;

    /// Some element leaves a state as it is.
    proof fn neutral(&self, state: u128) -> (element: nat)
        requires
            self.domain(state),
        ensures
            element < self.order(),
            self.image(state, element) == state,
    ;

    /// Two elements in a row act as one element.
    proof fn compose(&self, state: u128, first: nat, second: nat) -> (element: nat)
        requires
            self.domain(state),
            first < self.order(),
            second < self.order(),
        ensures
            element < self.order(),
            self.image(self.image(state, first), second) == self.image(state, element),
    ;

    /// Some element takes an image back.
    proof fn invert(&self, state: u128, element: nat) -> (inverse: nat)
        requires
            self.domain(state),
            element < self.order(),
        ensures
            inverse < self.order(),
            self.image(self.image(state, element), inverse) == state,
    ;
}

/// Whether some element sends `from` to `to`.
pub open spec fn in_orbit<A: OrbitAction>(action: &A, from: u128, to: u128) -> bool {
    exists|element: nat| element < action.order() && #[trigger] action.image(from, element) == to
}

/// All images of a state.
pub open spec fn orbit_set<A: OrbitAction>(action: &A, state: u128) -> Set<u128> {
    Set::new(|other: u128| in_orbit(action, state, other))
}

/// Whether a state is the smallest of its orbit.
pub open spec fn is_least<A: OrbitAction>(action: &A, state: u128) -> bool {
    forall|other: u128| #[trigger] in_orbit(action, state, other) ==> state <= other
}

/// Whether elements with the same image of `state` have the same phase.
///
/// Where they do not, the phases of each state of the orbit sum to zero and the
/// orbit does not contribute to the sector.
pub open spec fn phases_agree<A: OrbitAction>(action: &A, state: u128) -> bool {
    forall|first: nat, second: nat|
        first < action.order() && second < action.order() && #[trigger] action.image(state, first)
            == #[trigger] action.image(state, second) ==> action.steps(state, first)
            == action.steps(state, second)
}

/// Belonging to the orbit of a state is symmetric and transitive.
pub proof fn lemma_orbit_equivalence<A: OrbitAction>(action: &A, a: u128, b: u128)
    requires
        action.domain(a),
        in_orbit(action, a, b),
    ensures
        action.domain(b),
        in_orbit(action, a, a),
        in_orbit(action, b, a),
        forall|c: u128| #[trigger] in_orbit(action, b, c) <==> in_orbit(action, a, c),
{
    let e = choose|e: nat| e < action.order() && #[trigger] action.image(a, e) == b;
    action.image_in_domain(a, e);
    let n = action.neutral(a);
    assert(action.image(a, n) == a);
    let i = action.invert(a, e);
    assert(action.image(b, i) == a);
    assert forall|c: u128| #[trigger] in_orbit(action, b, c) <==> in_orbit(action, a, c) by {
        if in_orbit(action, b, c) {
            let f = choose|f: nat| f < action.order() && #[trigger] action.image(b, f) == c;
            let g = action.compose(a, e, f);
            assert(action.image(a, g) == c);
        }
        if in_orbit(action, a, c) {
            let f = choose|f: nat| f < action.order() && #[trigger] action.image(a, f) == c;
            let g = action.compose(b, i, f);
            assert(action.image(b, g) == c);
        }
    }
}

/// An orbit holds at least its own state.
pub proof fn lemma_orbit_not_empty<A: OrbitAction>(action: &A, word: u128)
    requires
        action.domain(word),
        in_orbit(action, word, word),
    ensures
        orbit_set(action, word).len() > 0,
{
    let all = orbit_set(action, word);
    let list = Seq::new(action.order(), |e: int| action.image(word, e as nat));
    assert(all =~= list.to_set()) by {
        assert forall|other: u128| all.contains(other) implies list.to_set().contains(other) by {
            let e = choose|e: nat| e < action.order() && #[trigger] action.image(word, e) == other;
            assert(list[e as int] == other);
        }
        assert forall|other: u128| list.to_set().contains(other) implies all.contains(other) by {
            let i = choose|i: int| 0 <= i < list.len() && list[i] == other;
            assert(action.image(word, i as nat) == other);
        }
    }
    vstd::seq_lib::seq_to_set_is_finite(list);
    assert(all.contains(word));
    if all.len() == 0 {
        vstd::set_lib::lemma_set_empty_equivalency_len(all);
    }
}

/// Canonical form of one packed state of a symmetry sector.
#[derive(Clone, Copy, Debug, PartialEq, Eq)]
pub struct SymmetryImage {
    /// Smallest state of the orbit.
    pub representative: u128,
    /// Phase steps from the representative to the state.
    pub steps: usize,
    /// Number of states in the orbit.
    pub orbit_size: usize,
}

/// Whether `image` is the canonical form of `state` in its orbit.
pub open spec fn describes<A: OrbitAction>(
    action: &A,
    state: u128,
    image: SymmetryImage,
) -> bool {
    &&& in_orbit(action, state, image.representative)
    &&& is_least(action, image.representative)
    &&& phases_agree(action, image.representative)
    &&& image.orbit_size == orbit_set(action, image.representative).len()
    &&& forall|element: nat|
        element < action.order() && #[trigger] action.image(image.representative, element) == state
            ==> action.steps(image.representative, element) == image.steps
}

/// The representatives of one sector with the canonical form of every state.
pub struct OrbitSector {
    /// Representatives, ascending.
    pub states: Vec<u128>,
    /// Number of states in the orbit of each representative.
    pub orbit_sizes: Vec<usize>,
    /// Canonical form of every state of the kept orbits.
    pub lookup: HashMap<u128, SymmetryImage>,
}

/// Whether some listed state leads to this one and the orbit is kept.
pub open spec fn reached<A: OrbitAction>(action: &A, parents: Seq<u128>, state: u128) -> bool {
    exists|i: int| 0 <= i < parents.len() && in_orbit(action, #[trigger] parents[i], state)
}

/// What a sector is: the kept orbits of the listed states.
pub open spec fn sector_of<A: OrbitAction>(
    action: &A,
    parents: Seq<u128>,
    sector: OrbitSector,
) -> bool {
    &&& weights::ascending(sector.states@)
    &&& sector.orbit_sizes@.len() == sector.states@.len()
    &&& forall|state: u128| #[trigger]
        sector.states@.contains(state) <==> {
            reached(action, parents, state) && is_least(action, state) && phases_agree(
                action,
                state,
            )
        }
    &&& forall|i: int|
        0 <= i < sector.states@.len() ==> #[trigger] sector.orbit_sizes@[i] == orbit_set(
            action,
            sector.states@[i],
        ).len()
    &&& forall|state: u128| #[trigger]
        sector.lookup@.contains_key(state) ==> {
            &&& reached(action, parents, state)
            &&& describes(action, state, sector.lookup@[state])
        }
    &&& forall|state: u128, least: u128|
        reached(action, parents, state) && #[trigger] in_orbit(action, state, least) && is_least(
            action,
            least,
        ) && phases_agree(action, least) ==> #[trigger] sector.lookup@.contains_key(state)
}

/// The distinct images of a state, ascending.
fn orbit_states<A: OrbitAction>(action: &A, state: u128) -> (orbit: Vec<u128>)
    requires
        action.domain(state),
    ensures
        ordered::strictly_sorted(orbit@),
        forall|other: u128| #[trigger] orbit@.contains(other) <==> in_orbit(action, state, other),
        orbit@.len() == orbit_set(action, state).len(),
        orbit@.len() > 0,
{
    let count: usize = action.count();
    let mut images: Vec<u128> = Vec::new();
    let mut element: usize = 0;
    while element < count
        invariant
            element <= count,
            count == action.order(),
            action.domain(state),
            images@.len() == element,
            forall|e: int| 0 <= e < element ==> #[trigger] images@[e] == action.image(state, e as nat),
        decreases count - element,
    {
        let (image, _steps) = action.act(state, element);
        images.push(image);
        element += 1;
    }
    let orbit: Vec<u128> = ordered::sort_dedup(&images);
    proof {
        assert forall|other: u128| #[trigger] orbit@.contains(other) <==> in_orbit(
            action,
            state,
            other,
        ) by {
            assert(orbit@.contains(other) <==> images@.contains(other));
            if images@.contains(other) {
                let e = choose|e: int| 0 <= e < images@.len() && images@[e] == other;
                assert(action.image(state, e as nat) == other);
            }
            if in_orbit(action, state, other) {
                let e = choose|e: nat|
                    e < action.order() && #[trigger] action.image(state, e) == other;
                assert(images@[e as int] == other);
            }
        }
        assert(orbit@.no_duplicates()) by {
            assert forall|i: int, j: int|
                0 <= i < orbit@.len() && 0 <= j < orbit@.len() && i != j implies orbit@[i]
                != orbit@[j] by {
                if i < j {
                    assert(orbit@[i].rank() < orbit@[j].rank());
                } else {
                    assert(orbit@[j].rank() < orbit@[i].rank());
                }
            }
        }
        orbit@.unique_seq_to_set();
        assert(orbit@.to_set() =~= orbit_set(action, state));
        let n = action.neutral(state);
        assert(in_orbit(action, state, state));
        assert(orbit@.contains(state));
    }
    orbit
}

/// Phase steps from a state to each of its images, where they are unambiguous.
fn phase_table<A: OrbitAction>(action: &A, state: u128) -> (table: Option<HashMap<u128, usize>>)
    requires
        action.domain(state),
    ensures
        match table {
            Some(table) => {
                &&& phases_agree(action, state)
                &&& forall|other: u128| #[trigger]
                    table@.contains_key(other) <==> in_orbit(action, state, other)
                &&& forall|element: nat|
                    element < action.order() ==> table@[#[trigger] action.image(state, element)]
                        == action.steps(state, element)
            },
            None => !phases_agree(action, state),
        },
{
    let count: usize = action.count();
    let mut table: HashMap<u128, usize> = HashMap::new();
    let mut element: usize = 0;
    while element < count
        invariant
            element <= count,
            count == action.order(),
            action.domain(state),
            forall|e: nat|
                e < element ==> #[trigger] table@.contains_key(action.image(state, e))
                    && table@[action.image(state, e)] == action.steps(state, e),
            forall|other: u128| #[trigger]
                table@.contains_key(other) ==> exists|e: nat|
                    e < element && #[trigger] action.image(state, e) == other,
        decreases count - element,
    {
        let (image, steps) = action.act(state, element);
        let ghost before = table@;
        let known: Option<usize> = match table.get(&image) {
            Some(known) => Some(*known),
            None => None,
        };
        match known {
            Some(known) => {
                if known != steps {
                    proof {
                        assert(before.contains_key(image));
                        let e = choose|e: nat|
                            e < element && #[trigger] action.image(state, e) == image;
                        assert(before.contains_key(action.image(state, e)));
                        assert(action.steps(state, e) != action.steps(state, element as nat));
                        assert(action.image(state, e) == action.image(state, element as nat));
                    }
                    return None;
                }
            },
            None => {
                table.insert(image, steps);
            },
        }
        proof {
            let next = element + 1;
            assert forall|other: u128| #[trigger] table@.contains_key(other) implies exists|e: nat|
                e < next && #[trigger] action.image(state, e) == other by {
                if before.contains_key(other) {
                    let e = choose|e: nat|
                        e < element && #[trigger] action.image(state, e) == other;
                    assert(action.image(state, e) == other && e < next);
                } else {
                    assert(action.image(state, element as nat) == other);
                }
            }
            assert forall|e: nat| e < next implies #[trigger] table@.contains_key(
                action.image(state, e),
            ) && table@[action.image(state, e)] == action.steps(state, e) by {
                if e < element {
                    assert(before.contains_key(action.image(state, e)));
                }
            }
        }
        element += 1;
    }
    proof {
        assert forall|first: nat, second: nat|
            first < action.order() && second < action.order() && #[trigger] action.image(
                state,
                first,
            ) == #[trigger] action.image(state, second) implies action.steps(state, first)
            == action.steps(state, second) by {
            assert(table@.contains_key(action.image(state, first)));
            assert(table@.contains_key(action.image(state, second)));
        }
        assert forall|e: nat| e < action.order() implies table@[#[trigger] action.image(state, e)]
            == action.steps(state, e) by {
            assert(table@.contains_key(action.image(state, e)));
        }
        assert forall|other: u128| #[trigger] table@.contains_key(other) <==> in_orbit(
            action,
            state,
            other,
        ) by {
            if in_orbit(action, state, other) {
                let e = choose|e: nat|
                    e < action.order() && #[trigger] action.image(state, e) == other;
                assert(table@.contains_key(action.image(state, e)));
            }
        }
    }
    Some(table)
}

/// Whether the images of every listed state are listed too.
pub open spec fn closed_under<A: OrbitAction>(action: &A, parents: Seq<u128>) -> bool {
    forall|state: u128| #[trigger] reached(action, parents, state) ==> parents.contains(state)
}

/// The kept orbits among those reached from the first `count` parents.
spec fn progress<A: OrbitAction>(
    action: &A,
    parents: Seq<u128>,
    representatives: Seq<u128>,
    lookup: Map<u128, SymmetryImage>,
    visited: Set<u128>,
) -> bool {
    &&& forall|state: u128| #[trigger]
        visited.contains(state) <==> reached(action, parents, state)
    &&& forall|state: u128| #[trigger]
        representatives.contains(state) <==> reached(action, parents, state) && is_least(
            action,
            state,
        ) && phases_agree(action, state)
    &&& forall|state: u128| #[trigger]
        lookup.contains_key(state) ==> reached(action, parents, state) && describes(
            action,
            state,
            lookup[state],
        )
    &&& forall|state: u128, least: u128|
        reached(action, parents, state) && #[trigger] in_orbit(action, state, least) && is_least(
            action,
            least,
        ) && phases_agree(action, least) ==> #[trigger] lookup.contains_key(state)
}

/// Reaching from one more parent.
proof fn lemma_reached_push<A: OrbitAction>(action: &A, parents: Seq<u128>, seed: u128, state: u128)
    ensures
        reached(action, parents.push(seed), state) <==> reached(action, parents, state) || in_orbit(
            action,
            seed,
            state,
        ),
{
    let wider = parents.push(seed);
    if reached(action, parents, state) {
        let i = choose|i: int|
            0 <= i < parents.len() && in_orbit(action, #[trigger] parents[i], state);
        assert(wider[i] == parents[i]);
    }
    if in_orbit(action, seed, state) {
        assert(wider[parents.len() as int] == seed);
    }
    if reached(action, wider, state) {
        let i = choose|i: int| 0 <= i < wider.len() && in_orbit(action, #[trigger] wider[i], state);
        if i < parents.len() {
            assert(parents[i] == wider[i]);
        }
    }
}

/// A parent that was reached before adds nothing.
proof fn lemma_reached_again<A: OrbitAction>(action: &A, parents: Seq<u128>, seed: u128)
    requires
        forall|i: int| 0 <= i < parents.len() ==> action.domain(#[trigger] parents[i]),
        reached(action, parents, seed),
    ensures
        forall|state: u128| #[trigger]
            reached(action, parents.push(seed), state) <==> reached(action, parents, state),
{
    let i = choose|i: int| 0 <= i < parents.len() && in_orbit(action, #[trigger] parents[i], seed);
    lemma_orbit_equivalence(action, parents[i], seed);
    assert forall|state: u128| #[trigger] reached(action, parents.push(seed), state) <==> reached(
        action,
        parents,
        state,
    ) by {
        lemma_reached_push(action, parents, seed, state);
        if in_orbit(action, seed, state) {
            assert(in_orbit(action, parents[i], state));
        }
    }
}

/// Adds the canonical forms of one kept orbit to the lookup.
fn record_orbit<A: OrbitAction>(
    action: &A,
    representative: u128,
    orbit: &Vec<u128>,
    table: &HashMap<u128, usize>,
    lookup: &mut HashMap<u128, SymmetryImage>,
)
    requires
        action.domain(representative),
        is_least(action, representative),
        phases_agree(action, representative),
        forall|other: u128| #[trigger]
            orbit@.contains(other) <==> in_orbit(action, representative, other),
        orbit@.len() == orbit_set(action, representative).len(),
        forall|other: u128| #[trigger]
            table@.contains_key(other) <==> in_orbit(action, representative, other),
        forall|element: nat|
            element < action.order() ==> table@[#[trigger] action.image(representative, element)]
                == action.steps(representative, element),
    ensures
        forall|state: u128| #[trigger]
            final(lookup)@.contains_key(state) <==> old(lookup)@.contains_key(state) || in_orbit(
                action,
                representative,
                state,
            ),
        forall|state: u128|
            !in_orbit(action, representative, state) && old(lookup)@.contains_key(state)
                ==> #[trigger] final(lookup)@[state] == old(lookup)@[state],
        forall|state: u128| #[trigger]
            in_orbit(action, representative, state) ==> describes(
                action,
                state,
                final(lookup)@[state],
            ),
{
    let mut next: usize = 0;
    let ghost start = lookup@;
    while next < orbit.len()
        invariant
            next <= orbit@.len(),
            action.domain(representative),
            is_least(action, representative),
            phases_agree(action, representative),
            forall|other: u128| #[trigger]
                orbit@.contains(other) <==> in_orbit(action, representative, other),
            orbit@.len() == orbit_set(action, representative).len(),
            forall|other: u128| #[trigger]
                table@.contains_key(other) <==> in_orbit(action, representative, other),
            forall|element: nat|
                element < action.order() ==> table@[#[trigger] action.image(
                    representative,
                    element,
                )] == action.steps(representative, element),
            forall|i: int| 0 <= i < next ==> lookup@.contains_key(#[trigger] orbit@[i]),
            forall|i: int|
                0 <= i < next ==> describes(
                    action,
                    #[trigger] orbit@[i],
                    lookup@[orbit@[i]],
                ),
            forall|state: u128| #[trigger]
                lookup@.contains_key(state) ==> start.contains_key(state) || in_orbit(
                    action,
                    representative,
                    state,
                ),
            forall|state: u128|
                start.contains_key(state) ==> #[trigger] lookup@.contains_key(state),
            forall|state: u128|
                !in_orbit(action, representative, state) && start.contains_key(state)
                    ==> #[trigger] lookup@[state] == start[state],
        decreases orbit@.len() - next,
    {
        let state: u128 = orbit[next];
        let ghost before = lookup@;
        proof {
            assert(orbit@.contains(state));
            assert(table@.contains_key(state));
        }
        let steps: usize = match table.get(&state) {
            Some(steps) => *steps,
            None => 0,
        };
        let image = SymmetryImage { representative, steps, orbit_size: orbit.len() };
        lookup.insert(state, image);
        proof {
            lemma_orbit_equivalence(action, representative, state);
            assert(describes(action, state, image)) by {
                assert forall|element: nat|
                    element < action.order() && #[trigger] action.image(representative, element)
                        == state implies action.steps(representative, element) == steps by {
                    assert(table@[action.image(representative, element)] == action.steps(
                        representative,
                        element,
                    ));
                }
            }
            assert forall|i: int| 0 <= i < next + 1 implies describes(
                action,
                #[trigger] orbit@[i],
                lookup@[orbit@[i]],
            ) by {
                if orbit@[i] != state {
                    assert(describes(action, orbit@[i], before[orbit@[i]]));
                }
            }
        }
        next += 1;
    }
    proof {
        assert forall|state: u128| #[trigger] in_orbit(action, representative, state) implies
            describes(action, state, lookup@[state]) by {
            assert(orbit@.contains(state));
            let i = choose|i: int| 0 <= i < orbit@.len() && orbit@[i] == state;
            assert(describes(action, orbit@[i], lookup@[orbit@[i]]));
        }
        assert forall|state: u128| #[trigger] lookup@.contains_key(state) <==> start.contains_key(
            state,
        ) || in_orbit(action, representative, state) by {
            if in_orbit(action, representative, state) {
                assert(orbit@.contains(state));
                let i = choose|i: int| 0 <= i < orbit@.len() && orbit@[i] == state;
                assert(lookup@.contains_key(orbit@[i]));
            }
        }
    }
}

/// Marks every state of an orbit as visited.
fn mark_orbit(orbit: &Vec<u128>, visited: &mut HashSet<u128>)
    ensures
        forall|state: u128| #[trigger]
            final(visited)@.contains(state) <==> old(visited)@.contains(state) || orbit@.contains(
                state,
            ),
{
    let mut next: usize = 0;
    let ghost start = visited@;
    while next < orbit.len()
        invariant
            next <= orbit@.len(),
            forall|state: u128| #[trigger]
                visited@.contains(state) <==> start.contains(state) || orbit@.take(
                    next as int,
                ).contains(state),
        decreases orbit@.len() - next,
    {
        let ghost seen = orbit@.take(next as int);
        let ghost wider = orbit@.take(next + 1);
        let ghost before = visited@;
        visited.insert(orbit[next]);
        proof {
            assert(wider =~= seen.push(orbit@[next as int]));
            assert forall|state: u128| #[trigger] visited@.contains(state) <==> start.contains(
                state,
            ) || wider.contains(state) by {
                vstd::seq_lib::lemma_seq_contains_after_push(seen, orbit@[next as int], state);
                assert(before.contains(state) <==> start.contains(state) || seen.contains(state));
            }
        }
        next += 1;
    }
    assert(orbit@.take(next as int) =~= orbit@);
}

/// Whether every state of the orbit belongs to a set.
fn orbit_listed(orbit: &Vec<u128>, parents: &HashSet<u128>) -> (listed: bool)
    ensures
        listed <==> forall|state: u128| #[trigger]
            orbit@.contains(state) ==> parents@.contains(state),
{
    let mut next: usize = 0;
    while next < orbit.len()
        invariant
            next <= orbit@.len(),
            forall|i: int| 0 <= i < next ==> parents@.contains(#[trigger] orbit@[i]),
        decreases orbit@.len() - next,
    {
        if !parents.contains(&orbit[next]) {
            assert(orbit@.contains(orbit@[next as int]));
            return false;
        }
        next += 1;
    }
    true
}

/// Keeps the orbits of the listed states on which the phases agree.
///
/// With `closed` set, an orbit that leaves the list is refused.
pub fn reduce_orbits<A: OrbitAction>(action: &A, parents: &Vec<u128>, closed: bool) -> (result:
    Result<OrbitSector>)
    requires
        forall|i: int| 0 <= i < parents@.len() ==> action.domain(#[trigger] parents@[i]),
    ensures
        match result {
            Ok(sector) => {
                &&& sector_of(action, parents@, sector)
                &&& closed ==> closed_under(action, parents@)
            },
            Err(error) => {
                &&& closed && !closed_under(action, parents@)
                &&& error == QmbedError::IncompatibleSymmetry(
                    "symmetry map leaves the selected magnetization sector",
                )
            },
        },
{
    let mut visited: HashSet<u128> = HashSet::new();
    let mut representatives: Vec<u128> = Vec::new();
    let mut lookup: HashMap<u128, SymmetryImage> = HashMap::new();
    let mut listed: HashSet<u128> = HashSet::new();
    mark_orbit(parents, &mut listed);
    let mut next: usize = 0;
    while next < parents.len()
        invariant
            next <= parents@.len(),
            forall|state: u128| #[trigger]
                listed@.contains(state) <==> parents@.contains(state),
            forall|i: int| 0 <= i < parents@.len() ==> action.domain(#[trigger] parents@[i]),
            progress(
                action,
                parents@.take(next as int),
                representatives@,
                lookup@,
                visited@,
            ),
            closed ==> forall|state: u128| #[trigger]
                reached(action, parents@.take(next as int), state) ==> parents@.contains(state),
        decreases parents@.len() - next,
    {
        let seed: u128 = parents[next];
        let ghost seen = parents@.take(next as int);
        let ghost wider = parents@.take(next + 1);
        proof {
            assert(wider =~= seen.push(seed));
            assert forall|i: int| 0 <= i < seen.len() implies action.domain(
                #[trigger] seen[i],
            ) by {
                assert(seen[i] == parents@[i]);
            }
        }
        if visited.contains(&seed) {
            proof {
                lemma_reached_again(action, seen, seed);
            }
        } else {
            let orbit: Vec<u128> = orbit_states(action, seed);
            if closed && !orbit_listed(&orbit, &listed) {
                proof {
                    let state = choose|state: u128| #[trigger]
                        orbit@.contains(state) && !listed@.contains(state);
                    assert(parents@[next as int] == seed);
                    assert(in_orbit(action, parents@[next as int], state));
                    assert(reached(action, parents@, state));
                }
                return Err(
                    QmbedError::IncompatibleSymmetry(
                        "symmetry map leaves the selected magnetization sector",
                    ),
                );
            }
            let representative: u128 = orbit[0];
            let ghost old_lookup = lookup@;
            let ghost old_representatives = representatives@;
            let ghost old_visited = visited@;
            proof {
                assert(orbit@.contains(representative));
                lemma_orbit_equivalence(action, seed, representative);
                assert forall|other: u128| #[trigger] in_orbit(
                    action,
                    representative,
                    other,
                ) implies representative <= other by {
                    assert(in_orbit(action, seed, other));
                    assert(orbit@.contains(other));
                    let i = choose|i: int| 0 <= i < orbit@.len() && orbit@[i] == other;
                    if i > 0 {
                        assert(orbit@[0].rank() < orbit@[i].rank());
                    }
                }
                assert(is_least(action, representative));
                assert(orbit_set(action, representative) =~= orbit_set(action, seed));
                assert forall|other: u128| #[trigger] orbit@.contains(other) <==> in_orbit(
                    action,
                    representative,
                    other,
                ) by {
                    assert(orbit@.contains(other) <==> in_orbit(action, seed, other));
                }
            }
            mark_orbit(&orbit, &mut visited);
            match phase_table(action, representative) {
                Some(table) => {
                    record_orbit(action, representative, &orbit, &table, &mut lookup);
                    representatives.push(representative);
                },
                None => {},
            }
            proof {
                lemma_progress_step(
                    action,
                    seen,
                    seed,
                    representative,
                    old_representatives,
                    old_lookup,
                    old_visited,
                    representatives@,
                    lookup@,
                    visited@,
                );
                if closed {
                    assert forall|state: u128| #[trigger] reached(action, wider, state) implies
                        parents@.contains(state) by {
                        lemma_reached_push(action, seen, seed, state);
                        if in_orbit(action, seed, state) {
                            assert(orbit@.contains(state));
                        }
                    }
                }
            }
        }
        next += 1;
    }
    assert(parents@.take(next as int) =~= parents@);
    let states: Vec<u128> = ordered::sort_dedup(&representatives);
    let mut orbit_sizes: Vec<usize> = Vec::new();
    let mut place: usize = 0;
    proof {
        assert forall|i: int| 0 <= i < states@.len() implies lookup@.contains_key(
            #[trigger] states@[i],
        ) && lookup@[states@[i]].representative == states@[i] by {
            lemma_representative_known(
                action,
                parents@,
                representatives@,
                lookup@,
                visited@,
                states@,
                i,
            );
        }
    }
    while place < states.len()
        invariant
            place <= states@.len(),
            orbit_sizes@.len() == place,
            forall|i: int|
                0 <= i < states@.len() ==> lookup@.contains_key(#[trigger] states@[i])
                    && lookup@[states@[i]].representative == states@[i],
            forall|i: int|
                0 <= i < place ==> #[trigger] orbit_sizes@[i] == lookup@[states@[i]].orbit_size,
        decreases states@.len() - place,
    {
        assert(lookup@.contains_key(states@[place as int]));
        let size: usize = match lookup.get(&states[place]) {
            Some(image) => image.orbit_size,
            None => 0,
        };
        orbit_sizes.push(size);
        place += 1;
    }
    let sector = OrbitSector { states, orbit_sizes, lookup };
    proof {
        assert(weights::ascending(sector.states@)) by {
            assert forall|i: int, j: int| 0 <= i < j < sector.states@.len() implies sector.states@[i]
                < sector.states@[j] by {
                assert(sector.states@[i].rank() < sector.states@[j].rank());
            }
        }
        assert forall|state: u128| #[trigger] sector.states@.contains(state) <==> {
            reached(action, parents@, state) && is_least(action, state) && phases_agree(
                action,
                state,
            )
        } by {
            assert(sector.states@.contains(state) <==> representatives@.contains(state));
        }
        assert forall|i: int| 0 <= i < sector.states@.len() implies #[trigger] sector.orbit_sizes@[i]
            == orbit_set(action, sector.states@[i]).len() by {
            let state = sector.states@[i];
            assert(sector.lookup@.contains_key(sector.states@[i]));
            assert(describes(action, state, sector.lookup@[state]));
        }
    }
    Ok(sector)
}

/// One more kept or dropped orbit extends the progress by one parent.
proof fn lemma_progress_step<A: OrbitAction>(
    action: &A,
    parents: Seq<u128>,
    seed: u128,
    representative: u128,
    old_representatives: Seq<u128>,
    old_lookup: Map<u128, SymmetryImage>,
    old_visited: Set<u128>,
    representatives: Seq<u128>,
    lookup: Map<u128, SymmetryImage>,
    visited: Set<u128>,
)
    requires
        forall|i: int| 0 <= i < parents.len() ==> action.domain(#[trigger] parents[i]),
        action.domain(seed),
        progress(action, parents, old_representatives, old_lookup, old_visited),
        !old_visited.contains(seed),
        in_orbit(action, seed, representative),
        is_least(action, representative),
        forall|state: u128| #[trigger]
            visited.contains(state) <==> old_visited.contains(state) || in_orbit(
                action,
                seed,
                state,
            ),
        !phases_agree(action, representative) ==> representatives == old_representatives && lookup
            == old_lookup,
        phases_agree(action, representative) ==> {
            &&& representatives == old_representatives.push(representative)
            &&& forall|state: u128| #[trigger]
                lookup.contains_key(state) <==> old_lookup.contains_key(state) || in_orbit(
                    action,
                    representative,
                    state,
                )
            &&& forall|state: u128|
                !in_orbit(action, representative, state) && old_lookup.contains_key(state)
                    ==> #[trigger] lookup[state] == old_lookup[state]
            &&& forall|state: u128| #[trigger]
                in_orbit(action, representative, state) ==> describes(action, state, lookup[state])
        },
    ensures
        progress(action, parents.push(seed), representatives, lookup, visited),
{
    let wider = parents.push(seed);
    let keep = phases_agree(action, representative);
    lemma_orbit_equivalence(action, seed, representative);
    assert forall|state: u128| #[trigger] visited.contains(state) <==> reached(
        action,
        wider,
        state,
    ) by {
        lemma_reached_push(action, parents, seed, state);
        assert(old_visited.contains(state) <==> reached(action, parents, state));
    }
    assert forall|state: u128| #[trigger] representatives.contains(state) <==> reached(
        action,
        wider,
        state,
    ) && is_least(action, state) && phases_agree(action, state) by {
        lemma_reached_push(action, parents, seed, state);
        assert(old_representatives.contains(state) <==> reached(action, parents, state) && is_least(
            action,
            state,
        ) && phases_agree(action, state));
        if keep {
            vstd::seq_lib::lemma_seq_contains_after_push(old_representatives, representative, state);
        }
        if in_orbit(action, seed, state) && is_least(action, state) {
            lemma_orbit_equivalence(action, seed, state);
            assert(in_orbit(action, state, representative));
            assert(in_orbit(action, representative, state));
            assert(state == representative);
        }
    }
    assert forall|state: u128| #[trigger] lookup.contains_key(state) implies reached(
        action,
        wider,
        state,
    ) && describes(action, state, lookup[state]) by {
        lemma_reached_push(action, parents, seed, state);
        if keep {
            if in_orbit(action, representative, state) {
                assert(in_orbit(action, seed, state));
            } else {
                assert(old_lookup.contains_key(state));
                assert(lookup[state] == old_lookup[state]);
            }
        } else {
            assert(old_lookup.contains_key(state));
        }
    }
    assert forall|state: u128, least: u128|
        reached(action, wider, state) && #[trigger] in_orbit(action, state, least) && is_least(
            action,
            least,
        ) && phases_agree(action, least) implies #[trigger] lookup.contains_key(state) by {
        lemma_reached_push(action, parents, seed, state);
        if in_orbit(action, seed, state) {
            lemma_orbit_equivalence(action, seed, state);
            assert(in_orbit(action, seed, least));
            lemma_orbit_equivalence(action, seed, least);
            assert(in_orbit(action, least, representative));
            assert(in_orbit(action, representative, least));
            assert(least == representative);
            assert(in_orbit(action, representative, state));
        } else {
            assert(old_lookup.contains_key(state));
        }
    }
}

/// A representative is its own canonical form.
proof fn lemma_representative_known<A: OrbitAction>(
    action: &A,
    parents: Seq<u128>,
    representatives: Seq<u128>,
    lookup: Map<u128, SymmetryImage>,
    visited: Set<u128>,
    states: Seq<u128>,
    i: int,
)
    requires
        forall|p: int| 0 <= p < parents.len() ==> action.domain(#[trigger] parents[p]),
        progress(action, parents, representatives, lookup, visited),
        forall|state: u128| #[trigger]
            states.contains(state) <==> representatives.contains(state),
        0 <= i < states.len(),
    ensures
        lookup.contains_key(states[i]),
        lookup[states[i]].representative == states[i],
{
    let state = states[i];
    assert(states.contains(state));
    assert(representatives.contains(state));
    let p = choose|p: int| 0 <= p < parents.len() && in_orbit(action, #[trigger] parents[p], state);
    lemma_orbit_equivalence(action, parents[p], state);
    let n = action.neutral(state);
    assert(in_orbit(action, state, state));
    assert(lookup.contains_key(state));
    let least = lookup[state].representative;
    assert(in_orbit(action, state, least));
    lemma_orbit_equivalence(action, state, least);
    assert(in_orbit(action, least, state));
}

} // verus!

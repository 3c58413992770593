//! Phases in the symmetry sectors of a general basis: each symmetry map turns by its sector.

use vstd::arithmetic::div_mod::{
    lemma_fundamental_div_mod,
    lemma_fundamental_div_mod_converse,
    lemma_mod_multiples_basic,
};
use vstd::prelude::*;

use crate::amplitudes::{ReductionFactor, Turn};
use crate::basis::{Basis, EitherPhase, Factor};
use crate::general;
use crate::general::{GeneralBasis, GeneralSymmetryImage};
use crate::general_sector;
use crate::ordered;
use crate::ordered::{Bounded, Ranked};
use crate::permutation;
use crate::product_laws;
use crate::symmetry;
use crate::symmetry::{PhaseFactor, SymmetryMap};

verus! {

/// Steps of a turn on a finer circle, whose steps are a multiple of its own.
pub open spec fn steps_on(turn: Turn, circle: nat) -> int {
    turn.steps * (circle / turn.circle as nat)
}

/// Whether a circle is fine enough for a turn.
pub open spec fn measures(circle: nat, turn: Turn) -> bool {
    &&& circle > 0
    &&& turn.circle > 0
    &&& circle % turn.circle as nat == 0
}

/// Steps of some rounds.
pub open spec fn steps_of(rounds: int, circle: nat) -> int {
    rounds * circle
}

/// Whether two numbers of steps lead to the same point of a circle.
pub open spec fn same_point(left: int, right: int, circle: nat) -> bool {
    exists|rounds: int| left - right == #[trigger] steps_of(rounds, circle)
}

proof fn lemma_same_point(left: int, right: int, circle: nat, rounds: int)
    requires
        left - right == rounds * circle,
    ensures
        same_point(left, right, circle),
{
    assert(left - right == steps_of(rounds, circle));
}

proof fn lemma_points_add(a: int, b: int, c: int, d: int, circle: nat)
    requires
        same_point(a, b, circle),
        same_point(c, d, circle),
    ensures
        same_point(a + c, b + d, circle),
        same_point(a - c, b - d, circle),
{
    let m = choose|rounds: int| a - b == #[trigger] steps_of(rounds, circle);
    let n = choose|rounds: int| c - d == #[trigger] steps_of(rounds, circle);
    assert((m + n) * circle == m * circle + n * circle) by (nonlinear_arith);
    assert((m - n) * circle == m * circle - n * circle) by (nonlinear_arith);
    lemma_same_point(a + c, b + d, circle, m + n);
    lemma_same_point(a - c, b - d, circle, m - n);
}

proof fn lemma_points_swap(a: int, b: int, circle: nat)
    requires
        same_point(a, b, circle),
    ensures
        same_point(b, a, circle),
{
    let m = choose|rounds: int| a - b == #[trigger] steps_of(rounds, circle);
    assert((-m) * circle == -(m * circle)) by (nonlinear_arith);
    lemma_same_point(b, a, circle, -m);
}

proof fn lemma_points_chain(a: int, b: int, c: int, circle: nat)
    requires
        same_point(a, b, circle),
        same_point(b, c, circle),
    ensures
        same_point(a, c, circle),
{
    lemma_points_add(a, b, b, c, circle);
    let m = choose|rounds: int| (a + b) - (b + c) == #[trigger] steps_of(rounds, circle);
    lemma_same_point(a, c, circle, m);
}

/// Whole rounds of a turn make no difference.
proof fn lemma_within_one_round(turn: Turn, circle: nat)
    requires
        measures(circle, turn),
    ensures
        same_point(
            steps_on(turn, circle),
            (turn.steps as int % turn.circle as int) * (circle as int / turn.circle as int),
            circle,
        ),
{
    let s = turn.steps as int;
    let c = turn.circle as int;
    let p = circle as int / c;
    lemma_fundamental_div_mod(s, c);
    lemma_fundamental_div_mod(circle as int, c);
    let rounds = s / c;
    let rest = s % c;
    assert(s * p - rest * p == rounds * circle) by (nonlinear_arith)
        requires
            s == c * rounds + rest,
            circle == c * p,
    ;
    lemma_same_point(s * p, rest * p, circle, rounds);
}

proof fn lemma_compose(first: Turn, second: Turn, circle: nat)
    requires
        first.spec_compose(second).circle > 0,
        measures(circle, first),
        measures(circle, second),
    ensures
        measures(circle, first.spec_compose(second)),
        same_point(
            steps_on(first.spec_compose(second), circle),
            steps_on(first, circle) + steps_on(second, circle),
            circle,
        ),
{
    let both = first.spec_compose(second);
    let common = permutation::lcm(first.circle as nat, second.circle as nat);
    permutation::lemma_lcm(first.circle as nat, second.circle as nat, circle);
    permutation::lemma_lcm(first.circle as nat, second.circle as nat, common);
    assert(common % common == 0) by {
        lemma_mod_multiples_basic(1, common as int);
    }
    let l = common as int;
    let q = circle as int / l;
    let p = l / first.circle as int;
    let r = l / second.circle as int;
    let a = (first.steps as nat % first.circle as nat) as int;
    let b = (second.steps as nat % second.circle as nat) as int;
    lemma_fundamental_div_mod(circle as int, l);
    lemma_fundamental_div_mod(l, first.circle as int);
    lemma_fundamental_div_mod(l, second.circle as int);
    let whole = a * p + b * r;
    lemma_fundamental_div_mod(whole, l);
    assert(whole >= 0) by (nonlinear_arith)
        requires
            a >= 0,
            p >= 0,
            b >= 0,
            r >= 0,
            whole == a * p + b * r,
    ;
    assert(both.steps == whole % l);
    let over = whole / l;
    // The finer circle holds the common one `q` times.
    assert(circle as int == (p * q) * first.circle as int) by (nonlinear_arith)
        requires
            circle as int == l * q,
            l == first.circle as int * p,
    ;
    assert(circle as int == (r * q) * second.circle as int) by (nonlinear_arith)
        requires
            circle as int == l * q,
            l == second.circle as int * r,
    ;
    lemma_fundamental_div_mod_converse(circle as int, first.circle as int, p * q, 0);
    lemma_fundamental_div_mod_converse(circle as int, second.circle as int, r * q, 0);
    let kept = whole % l;
    assert(a * (p * q) == (a * p) * q) by (nonlinear_arith);
    assert(b * (r * q) == (b * r) * q) by (nonlinear_arith);
    assert((a * p) * q + (b * r) * q == whole * q) by (nonlinear_arith)
        requires
            whole == a * p + b * r,
    ;
    assert(whole * q == over * (l * q) + kept * q) by (nonlinear_arith)
        requires
            whole == l * over + kept,
    ;
    assert((-over) * circle == -(over * circle)) by (nonlinear_arith);
    lemma_same_point(kept * q, a * (p * q) + b * (r * q), circle, -over);
    lemma_within_one_round(first, circle);
    lemma_within_one_round(second, circle);
    let (x, y) = (steps_on(first, circle), steps_on(second, circle));
    lemma_points_add(x, a * (p * q), y, b * (r * q), circle);
    lemma_points_swap(x + y, a * (p * q) + b * (r * q), circle);
    lemma_points_chain(kept * q, a * (p * q) + b * (r * q), x + y, circle);
}

proof fn lemma_gauge(turn: Turn, circle: nat)
    requires
        measures(circle, turn),
    ensures
        measures(circle, turn.spec_gauge()),
        same_point(steps_on(turn.spec_gauge(), circle), -steps_on(turn, circle), circle),
{
    let c = turn.circle as int;
    let p = circle as int / c;
    let rest = turn.steps as int % c;
    lemma_fundamental_div_mod(circle as int, c);
    lemma_within_one_round(turn, circle);
    lemma_same_point(0, 0, circle, 0);
    lemma_points_add(0, 0, steps_on(turn, circle), rest * p, circle);
    lemma_points_swap(-steps_on(turn, circle), -(rest * p), circle);
    let back = turn.spec_gauge().steps as int;
    if rest == 0 {
        lemma_fundamental_div_mod_converse(c, c, 1, 0);
        assert(back == 0);
        assert(0 * p == 0 && rest * p == 0) by (nonlinear_arith)
            requires
                rest == 0,
        ;
        lemma_same_point(back * p, -(rest * p), circle, 0);
    } else {
        lemma_fundamental_div_mod_converse(c - rest, c, 0, c - rest);
        assert(back == c - rest);
        assert((c - rest) * p - (-(rest * p)) == 1 * circle) by (nonlinear_arith)
            requires
                circle as int == c * p,
        ;
        lemma_same_point(back * p, -(rest * p), circle, 1);
    }
    lemma_points_chain(back * p, -(rest * p), -steps_on(turn, circle), circle);
}

proof fn lemma_agrees(first: Turn, second: Turn, circle: nat)
    requires
        first.spec_agrees(second),
        measures(circle, first),
        measures(circle, second),
    ensures
        same_point(steps_on(first, circle), steps_on(second, circle), circle),
{
    let a = (first.steps as nat % first.circle as nat) as int;
    let b = (second.steps as nat % second.circle as nat) as int;
    let (m, n) = (first.circle as int, second.circle as int);
    let (p, r) = (circle as int / m, circle as int / n);
    lemma_fundamental_div_mod(circle as int, m);
    lemma_fundamental_div_mod(circle as int, n);
    assert((a * p - b * r) * (m * n) == 0) by (nonlinear_arith)
        requires
            a * n == b * m,
            circle as int == m * p,
            circle as int == n * r,
    {
        assert(a * p * (m * n) == a * n * (m * p)) by (nonlinear_arith);
        assert(b * r * (m * n) == b * m * (n * r)) by (nonlinear_arith);
    }
    assert(a * p == b * r) by (nonlinear_arith)
        requires
            (a * p - b * r) * (m * n) == 0,
            m > 0,
            n > 0,
    ;
    lemma_within_one_round(first, circle);
    lemma_within_one_round(second, circle);
    lemma_points_swap(steps_on(second, circle), b * r, circle);
    lemma_points_chain(steps_on(first, circle), a * p, steps_on(second, circle), circle);
}

/// Where two turns combine to a turn, both are turns; and a circle that measures the combination
/// measures both.
proof fn lemma_parts_measured(first: Turn, second: Turn, circle: nat)
    requires
        measures(circle, first.spec_compose(second)),
    ensures
        measures(circle, first),
        measures(circle, second),
{
    permutation::lemma_lcm(first.circle as nat, second.circle as nat, circle);
}

/// Whether a turn is what two turns and a number of steps of a third circle make together, on every
/// circle that is fine enough for all of them.
pub open spec fn turns_by(total: Turn, before: Turn, more: Turn, sector: int, period: nat) -> bool {
    forall|circle: nat| #[trigger]
        measures(circle, total) && measures(circle, before) && measures(circle, more) && circle
            % period == 0 ==> same_point(
            steps_on(total, circle),
            steps_on(before, circle) + steps_on(more, circle) + sector * (circle / period),
            circle,
        )
}

/// The states of an orbit have their images in one row.
proof fn lemma_image_of_member<Parent: Basis, M>(
    reduced: GeneralBasis<Parent, M>,
    row: int,
    state: Parent::State,
    image: GeneralSymmetryImage<Parent::State, M::Factor>,
    other: Parent::State,
) where Parent::State: Bounded, M: SymmetryMap<Parent::State>
    requires
        reduced.valid(),
        reduced.spec_generators().len() > 0,
        general::all_injective(reduced.spec_generators()),
        general_sector::images_orbit(
            reduced.spec_parent().spec_states(),
            reduced.spec_generators(),
            reduced.spec_ordering(),
            row,
            state,
            image,
        ),
        general_sector::in_orbit(
            reduced.spec_generators(),
            reduced.spec_parent().spec_states()[row],
            other,
        ),
    ensures
        reduced.spec_image(other) is Some,
        reduced.spec_image(other)->0.representative == image.representative,
        reduced.spec_image(other)->0.orbit_size == image.orbit_size,
        general_sector::images_orbit(
            reduced.spec_parent().spec_states(),
            reduced.spec_generators(),
            reduced.spec_ordering(),
            row,
            other,
            reduced.spec_image(other)->0,
        ),
{
    let parent = reduced.spec_parent().spec_states();
    let gens = reduced.spec_generators();
    let ordering = reduced.spec_ordering();
    general_sector::lemma_images_fit(reduced);
    let found = reduced.spec_image(other);
    assert(general_sector::image_fits(parent, gens, ordering, other, found));
    assert(general_sector::opens_orbit(parent, gens, row));
    let place = choose|place: int|
        place < parent.len() && #[trigger] general_sector::images_orbit(
            parent,
            gens,
            ordering,
            place,
            other,
            found->0,
        );
    general_sector::lemma_opened_orbits_apart(parent, gens, row, place, other);
    let (one, two) = (found->0.representative, image.representative);
    assert(general_sector::in_orbit(gens, parent[row], one));
    assert(general_sector::in_orbit(gens, parent[row], two));
    assert(one.rank() == two.rank());
    <Parent::State as ordered::Coded>::rank_identifies(one, two);
}

/// In a sector every symmetry map multiplies by its phase: where a map leads from one state of an
/// orbit to another, the image of the latter stands in the same row, with the phase of the former
/// times what the map itself attaches times the step of the map in its sector, a fraction
/// `sector / period` of the circle. A representative has phase one.
pub proof fn law_each_map_turns_by_its_sector<Parent: Basis, M>(
    reduced: GeneralBasis<Parent, M>,
    state: Parent::State,
    g: int,
) where Parent::State: Bounded, M: SymmetryMap<Parent::State, Factor = Turn>
    requires
        reduced.valid(),
        general::all_injective(reduced.spec_generators()),
        reduced.spec_image(state) is Some,
        0 <= g < reduced.spec_generators().len(),
    ensures
        ({
            let generator = reduced.spec_generators()[g];
            let image = reduced.spec_image(state)->0;
            let standing = reduced.spec_image(image.representative);
            &&& generator.map.spec_map_period() > 0
            &&& generator.map.spec_apply(state) is Ok
            &&& ({
                let (target, attached) = generator.map.spec_apply(state)->Ok_0;
                let reached = reduced.spec_image(target);
                &&& reached is Some
                &&& reached->0.representative == image.representative
                &&& reached->0.orbit_size == image.orbit_size
                &&& turns_by(
                    reached->0.phase,
                    image.phase,
                    attached,
                    generator.sector as int,
                    generator.map.spec_map_period() as nat,
                )
            })
            &&& standing is Some
            &&& standing->0.representative == image.representative
            &&& forall|circle: nat| #[trigger]
                measures(circle, standing->0.phase) ==> same_point(
                    steps_on(standing->0.phase, circle),
                    0,
                    circle,
                )
        }),
{
    let parent = reduced.spec_parent().spec_states();
    let gens = reduced.spec_generators();
    let ordering = reduced.spec_ordering();
    let image = reduced.spec_image(state)->0;
    general_sector::lemma_images_fit(reduced);
    assert(general_sector::image_fits(parent, gens, ordering, state, Some(image)));
    let row = choose|row: int|
        row < parent.len() && #[trigger] general_sector::images_orbit(
            parent,
            gens,
            ordering,
            row,
            state,
            image,
        );
    let seed = parent[row];
    let known = symmetry::orbit_trace(gens, seed)->Ok_0;
    symmetry::lemma_trace_sound(gens, seed);
    general_sector::lemma_trace_is_orbit(gens, seed);
    let source = known.states.index_of(state);
    assert(known.states.contains(state));
    assert(known.states[source] == state);
    symmetry::law_orbit_closed(gens, seed, source, g);
    symmetry::law_compatible_agrees(gens, seed);
    assert(symmetry::coefficient_agrees(gens, known, source, g));
    let (target, attached) = symmetry::step(gens[g], state)->Ok_0;
    lemma_image_of_member(reduced, row, state, image, target);
    lemma_image_of_member(reduced, row, state, image, image.representative);
    let reached = reduced.spec_image(target)->0;
    let standing = reduced.spec_image(image.representative)->0;
    let place = symmetry::extreme_place(known.states, ordering);
    let phases = <Turn as PhaseFactor>::spec_relative(known.coefficients, place)->0;
    let to = known.states.index_of(target);
    assert(known.states.contains(target));
    let turn_back = known.coefficients[place].spec_gauge();
    assert(image.phase == known.coefficients[source].spec_compose(turn_back));
    assert(reached.phase == known.coefficients[to].spec_compose(turn_back));
    assert(reached.phase.circle > 0 && image.phase.circle > 0);
    let own = symmetry::generator_step(gens[g]);
    let sector = gens[g].sector as int;
    let period = gens[g].map.spec_map_period() as nat;
    let start = known.coefficients[source];
    let next = symmetry::next_coefficient(gens[g], start, attached);
    if to > 0 && known.sources[to] == (source as nat, g as nat) {
        assert(symmetry::explains(gens, known, to));
        assert(known.coefficients[to] == next);
    }
    assert(next.circle > 0);
    assert forall|circle: nat| #[trigger]
        measures(circle, reached.phase) && measures(circle, image.phase) && measures(
            circle,
            attached,
        ) && circle % period == 0 implies same_point(
        steps_on(reached.phase, circle),
        steps_on(image.phase, circle) + steps_on(attached, circle) + sector * (circle / period),
        circle,
    ) by {
        lemma_edge(
            start,
            known.coefficients[to],
            turn_back,
            attached,
            sector,
            period as usize,
            circle,
        );
    }
    general::lemma_has_extreme(known.states, ordering);
    let chief = known.states[place];
    assert(known.states.contains(chief));
    assert(general_sector::in_orbit(gens, seed, chief));
    assert(known.states.contains(image.representative));
    assert(chief.rank() == image.representative.rank());
    <Parent::State as ordered::Coded>::rank_identifies(chief, image.representative);
    assert(known.states.index_of(chief) == place);
    assert(standing.phase == known.coefficients[place].spec_compose(turn_back));
    assert forall|circle: nat| #[trigger] measures(circle, standing.phase) implies same_point(
        steps_on(standing.phase, circle),
        0,
        circle,
    ) by {
        let own_turn = known.coefficients[place];
        lemma_parts_measured(own_turn, turn_back, circle);
        lemma_gauge(own_turn, circle);
        lemma_compose(own_turn, turn_back, circle);
        let (x, y) = (steps_on(own_turn, circle), steps_on(turn_back, circle));
        lemma_same_point(x, x, circle, 0);
        lemma_points_add(x, x, y, -x, circle);
        lemma_points_chain(steps_on(standing.phase, circle), x + y, 0, circle);
    }
}

/// Which transitions of the parent basis are kept, in order.
spec fn kept_places<State, P, Q>(
    transitions: Seq<(State, Seq<Factor<P>>)>,
    images: spec_fn(State) -> Option<GeneralSymmetryImage<State, Q>>,
) -> Seq<int>
    decreases transitions.len(),
{
    if transitions.len() == 0 {
        Seq::empty()
    } else {
        let earlier = kept_places(transitions.drop_last(), images);
        if images(transitions.last().0) is Some {
            earlier.push(transitions.len() - 1)
        } else {
            earlier
        }
    }
}

/// Whether a transition between reduced states is a transition of the parent basis, followed by
/// the image of its target.
pub open spec fn continues<State, P, Q>(
    transition: (State, Seq<Factor<EitherPhase<P, Q>>>),
    before: (State, Seq<Factor<P>>),
    image: GeneralSymmetryImage<State, Q>,
    source_orbit: usize,
) -> bool {
    &&& transition.0 == image.representative
    &&& transition.1.len() == before.1.len() + 1
    &&& forall|f: int|
        0 <= f < before.1.len() ==> product_laws::is_from_left(
            transition.1[f],
            #[trigger] before.1[f],
        )
    &&& transition.1.last() == Factor::Reduced(
        ReductionFactor {
            source_orbit,
            target_orbit: image.orbit_size,
            phase: EitherPhase::<P, Q>::Right(image.phase),
        },
    )
}

proof fn lemma_kept_places<State, P, Q>(
    transitions: Seq<(State, Seq<Factor<P>>)>,
    images: spec_fn(State) -> Option<GeneralSymmetryImage<State, Q>>,
    source_orbit: usize,
)
    ensures
        ({
            let places = kept_places(transitions, images);
            let list = general::reduced_transitions(transitions, images, source_orbit);
            &&& places.len() == list.len()
            &&& forall|i: int, j: int| 0 <= i < j < places.len() ==> places[i] < places[j]
            &&& forall|i: int|
                0 <= i < places.len() ==> {
                    let place = #[trigger] places[i];
                    &&& 0 <= place < transitions.len()
                    &&& images(transitions[place].0) is Some
                    &&& continues(
                        list[i],
                        transitions[place],
                        images(transitions[place].0)->0,
                        source_orbit,
                    )
                }
            &&& forall|place: int|
                0 <= place < transitions.len() && images((#[trigger] transitions[place]).0) is Some
                    ==> places.contains(place)
        }),
    decreases transitions.len(),
{
    if transitions.len() > 0 {
        let less = transitions.drop_last();
        lemma_kept_places(less, images, source_orbit);
        let before = kept_places(less, images);
        let places = kept_places(transitions, images);
        let list = general::reduced_transitions(transitions, images, source_orbit);
        let earlier = general::reduced_transitions(less, images, source_orbit);
        assert forall|i: int| 0 <= i < places.len() implies {
            let place = #[trigger] places[i];
            &&& 0 <= place < transitions.len()
            &&& images(transitions[place].0) is Some
            &&& continues(
                list[i],
                transitions[place],
                images(transitions[place].0)->0,
                source_orbit,
            )
        } by {
            if i < before.len() {
                assert(places[i] == before[i]);
                assert(list[i] == earlier[i]);
                assert(transitions[places[i]] == less[places[i]]);
            }
        }
        assert forall|place: int|
            0 <= place < transitions.len() && images(
                (#[trigger] transitions[place]).0,
            ) is Some implies places.contains(place) by {
            if place < less.len() {
                assert(less[place] == transitions[place]);
                let i = before.index_of(place);
                assert(places[i] == place);
            } else {
                assert(places.last() == place);
            }
        }
    }
}

/// Transitions of a reduced basis are those of its parent basis, each followed by the image of its
/// target: exactly the transitions onto states of the sector are kept, in order, and each carries
/// the numbers of states that share the row of its source and the row of its target.
pub proof fn law_reduced_transitions_follow_the_parent<Parent: Basis, M>(
    reduced: GeneralBasis<Parent, M>,
    state: Parent::State,
    operator: Seq<char>,
    sites: Seq<usize>,
) -> (places: Seq<int>) where Parent::State: Bounded, M: SymmetryMap<Parent::State>
    requires
        reduced.valid(),
        reduced.spec_generators().len() > 0,
        general::all_injective(reduced.spec_generators()),
        reduced.spec_rows().contains(state),
        reduced.spec_parent().spec_transitions(state, operator, sites) is Ok,
    ensures
        ({
            let before = reduced.spec_parent().spec_transitions(state, operator, sites)->Ok_0;
            let list = reduced.spec_transitions(state, operator, sites)->Ok_0;
            &&& reduced.spec_transitions(state, operator, sites) is Ok
            &&& places.len() == list.len()
            &&& forall|i: int, j: int| 0 <= i < j < places.len() ==> places[i] < places[j]
            &&& forall|place: int|
                0 <= place < before.len() && reduced.spec_image(
                    (#[trigger] before[place]).0,
                ) is Some ==> places.contains(place)
            &&& forall|i: int|
                0 <= i < places.len() ==> {
                    let image = reduced.spec_image(before[#[trigger] places[i]].0);
                    let source = general_sector::states_of(reduced, state).len();
                    let target = general_sector::states_of(reduced, list[i].0).len();
                    &&& 0 <= places[i] < before.len()
                    &&& image is Some
                    &&& source <= usize::MAX
                    &&& image->0.orbit_size == target
                    &&& continues(list[i], before[places[i]], image->0, source as usize)
                }
        }),
{
    reduced.lemma_valid();
    general_sector::law_rows_are_the_sector(reduced);
    let parent = reduced.spec_parent().spec_states();
    let gens = reduced.spec_generators();
    let ordering = reduced.spec_ordering();
    let before = reduced.spec_parent().spec_transitions(state, operator, sites)->Ok_0;
    let images = |target: Parent::State| reduced.spec_image(target);
    let row = reduced.spec_row(state);
    assert(row is Some);
    assert(reduced.spec_rows()[row->0 as int] == state);
    let source = reduced.spec_orbit_lengths()[row->0 as int];
    let places = kept_places(before, images);
    lemma_kept_places(before, images, source);
    let list = reduced.spec_transitions(state, operator, sites)->Ok_0;
    assert(list == general::reduced_transitions(before, images, source));
    assert forall|i: int| 0 <= i < places.len() implies {
        let image = reduced.spec_image(before[#[trigger] places[i]].0);
        let count = general_sector::states_of(reduced, state).len();
        let target = general_sector::states_of(reduced, list[i].0).len();
        &&& 0 <= places[i] < before.len()
        &&& image is Some
        &&& count <= usize::MAX
        &&& image->0.orbit_size == target
        &&& continues(list[i], before[places[i]], image->0, count as usize)
    } by {
        let target = before[places[i]].0;
        assert(images(target) is Some);
        let image = reduced.spec_image(target)->0;
        assert(general_sector::image_fits(parent, gens, ordering, target, Some(image)));
        let place = choose|place: int|
            place < parent.len() && #[trigger] general_sector::images_orbit(
                parent,
                gens,
                ordering,
                place,
                target,
                image,
            );
        general_sector::lemma_states_of_orbit(
            reduced,
            place,
            image.representative,
            image.orbit_size,
        );
    }
    assert forall|place: int|
        0 <= place < before.len() && reduced.spec_image(
            (#[trigger] before[place]).0,
        ) is Some implies places.contains(place) by {
        assert(images(before[place].0) is Some);
    }
    places
}

/// One application of a map, measured on a circle.
proof fn lemma_edge(
    start: Turn,
    end: Turn,
    turn_back: Turn,
    attached: Turn,
    sector: int,
    period: usize,
    circle: nat,
)
    requires
        period > 0,
        measures(circle, start.spec_compose(turn_back)),
        measures(circle, end.spec_compose(turn_back)),
        measures(circle, attached),
        circle % period as nat == 0,
        ({
            let own = Turn { steps: (sector % period as int) as usize, circle: period };
            let next = start.spec_compose(attached).spec_compose(own);
            next.circle > 0 && (end == next || end.spec_agrees(next))
        }),
    ensures
        same_point(
            steps_on(end.spec_compose(turn_back), circle),
            steps_on(start.spec_compose(turn_back), circle) + steps_on(attached, circle) + sector
                * (circle / period as nat),
            circle,
        ),
{
    let own = Turn { steps: (sector % period as int) as usize, circle: period };
    let middle = start.spec_compose(attached);
    let next = middle.spec_compose(own);
    lemma_parts_measured(start, turn_back, circle);
    lemma_parts_measured(end, turn_back, circle);
    lemma_compose(start, turn_back, circle);
    lemma_compose(end, turn_back, circle);
    lemma_compose(start, attached, circle);
    lemma_compose(middle, own, circle);
    let s = steps_on(start, circle);
    let e = steps_on(end, circle);
    let b = steps_on(turn_back, circle);
    let m = steps_on(middle, circle);
    let n = steps_on(next, circle);
    let a = steps_on(attached, circle);
    let o = steps_on(own, circle);
    let p = circle as int / period as int;
    let wanted = sector * p;
    if end == next {
        lemma_same_point(e, n, circle, 0);
    } else {
        lemma_agrees(end, next, circle);
    }
    // The sector counts modulo the period.
    lemma_fundamental_div_mod(sector, period as int);
    lemma_fundamental_div_mod(circle as int, period as int);
    let rest = sector % period as int;
    assert(rest * p - sector * p == (-(sector / period as int)) * circle) by (nonlinear_arith)
        requires
            sector == period as int * (sector / period as int) + rest,
            circle as int == period as int * p,
    ;
    lemma_same_point(o, wanted, circle, -(sector / period as int));
    lemma_points_add(m, s + a, o, wanted, circle);
    lemma_points_chain(n, m + o, s + a + wanted, circle);
    lemma_points_chain(e, n, s + a + wanted, circle);
    lemma_same_point(b, b, circle, 0);
    lemma_points_add(e, s + a + wanted, b, b, circle);
    let reached = steps_on(end.spec_compose(turn_back), circle);
    let image = steps_on(start.spec_compose(turn_back), circle);
    lemma_points_chain(reached, e + b, s + a + wanted + b, circle);
    lemma_points_swap(image, s + b, circle);
    lemma_same_point(a + wanted, a + wanted, circle, 0);
    lemma_points_add(s + b, image, a + wanted, a + wanted, circle);
    lemma_points_chain(reached, s + a + wanted + b, image + a + wanted, circle);
}

} // verus!

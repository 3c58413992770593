//! What evolution in an eigensystem does: every eigenvector turns by its own energy.

use vstd::prelude::*;

use crate::ensemble;
use crate::evolution::{evolved, evolved_density, evolved_element, evolved_entry, in_eigensystem, sandwich_between, Evolving};
use crate::exact;
use crate::exact::ExactScalar;
use crate::exact_numbers::{ExactEvolving, ExactReal};
use crate::linear;
use crate::linear::Scalar;
use crate::numbers::RealNumber;
use crate::partial_traces;
use crate::sums;
use crate::sums::total_of;

verus! {

/// Whether vectors have unit length and are perpendicular to each other.
pub open spec fn orthonormal<S: Scalar>(vectors: Seq<Seq<S>>) -> bool {
    forall|i: int, j: int|
        0 <= i < vectors.len() && 0 <= j < vectors.len() ==> linear::inner_product(
            #[trigger] vectors[i],
            #[trigger] vectors[j],
        ) == if i == j {
            S::spec_one()
        } else {
            S::spec_zero()
        }
}

/// All levels moved by a constant.
pub open spec fn shifted_levels<R: RealNumber>(levels: Seq<R>, shift: R) -> Seq<R> {
    Seq::new(levels.len(), |i: int| levels[i].spec_plus(shift))
}

/// All levels times a constant.
pub open spec fn stretched_levels<R: RealNumber>(levels: Seq<R>, factor: R) -> Seq<R> {
    Seq::new(levels.len(), |i: int| factor.spec_times(levels[i]))
}

/// The share of one level in an entry at a time.
spec fn level_term<R: RealNumber, S: Evolving<R>>(
    initial: Seq<S>,
    levels: Seq<R>,
    eigenvectors: Seq<Seq<S>>,
    time: R,
    place: int,
    level: int,
) -> S {
    linear::inner_product(eigenvectors[level], initial).spec_times(
        S::spec_rotation(time.spec_times(levels[level])),
    ).spec_times(eigenvectors[level][place])
}

proof fn lemma_entry<R: RealNumber, S: Evolving<R>>(
    initial: Seq<S>,
    levels: Seq<R>,
    eigenvectors: Seq<Seq<S>>,
    time: R,
    place: int,
    count: nat,
)
    ensures
        evolved_entry(initial, levels, eigenvectors, time, place, count) == total_of(
            |level: int| level_term(initial, levels, eigenvectors, time, place, level),
            count,
        ),
    decreases count,
{
    if count > 0 {
        lemma_entry(initial, levels, eigenvectors, time, place, (count - 1) as nat);
    }
}

/// An eigenvector evolves by a phase alone, and the phase turns linearly in its energy.
pub proof fn law_eigenvectors_only_turn<R: ExactReal, S: ExactEvolving<R>>(
    levels: Seq<R>,
    eigenvectors: Seq<Seq<S>>,
    time: R,
    level: int,
)
    requires
        ensemble::square(eigenvectors, levels.len()),
        orthonormal(eigenvectors),
        0 <= level < levels.len(),
    ensures
        evolved(eigenvectors[level], levels, eigenvectors, time) == linear::scaled(
            eigenvectors[level],
            S::spec_rotation(time.spec_times(levels[level])),
        ),
{
    let initial = eigenvectors[level];
    let turn = S::spec_rotation(time.spec_times(levels[level]));
    let found = evolved(initial, levels, eigenvectors, time);
    let stated = linear::scaled(initial, turn);
    assert forall|place: int| 0 <= place < initial.len() implies #[trigger] found[place]
        == stated[place] by {
        lemma_entry(initial, levels, eigenvectors, time, place, levels.len());
        let term = |l: int| level_term(initial, levels, eigenvectors, time, place, l);
        assert forall|l: int| 0 <= l < levels.len() && l != level implies #[trigger] term(l)
            == S::spec_zero() by {
            assert(linear::inner_product(eigenvectors[l], eigenvectors[level]) == S::spec_zero());
            S::zero_is_neutral(S::spec_rotation(time.spec_times(levels[l])));
            S::zero_is_neutral(eigenvectors[l][place]);
        }
        sums::lemma_single(term, level, levels.len());
        assert(linear::inner_product(eigenvectors[level], eigenvectors[level]) == S::spec_one());
        S::one_is_neutral(turn);
        S::times_commutes(turn, initial[place]);
    }
    assert(found =~= stated);
}

/// Only differences of energies matter: all energies moved by one constant turn the whole state
/// by that constant times the time.
pub proof fn law_common_energy_turns_the_state<R: ExactReal, S: ExactEvolving<R>>(
    initial: Seq<S>,
    levels: Seq<R>,
    eigenvectors: Seq<Seq<S>>,
    time: R,
    shift: R,
)
    ensures
        evolved(initial, shifted_levels(levels, shift), eigenvectors, time) == linear::scaled(
            evolved(initial, levels, eigenvectors, time),
            S::spec_rotation(time.spec_times(shift)),
        ),
{
    let moved = shifted_levels(levels, shift);
    let turn = S::spec_rotation(time.spec_times(shift));
    let found = evolved(initial, moved, eigenvectors, time);
    let stated = linear::scaled(evolved(initial, levels, eigenvectors, time), turn);
    assert forall|place: int| 0 <= place < initial.len() implies #[trigger] found[place]
        == stated[place] by {
        lemma_entry(initial, levels, eigenvectors, time, place, levels.len());
        lemma_entry(initial, moved, eigenvectors, time, place, levels.len());
        let before = |l: int| level_term(initial, levels, eigenvectors, time, place, l);
        let after = |l: int| level_term(initial, moved, eigenvectors, time, place, l);
        let turned = |l: int| before(l).spec_times(turn);
        assert forall|l: int| 0 <= l < levels.len() implies #[trigger] after(l) == turned(l) by {
            let own = S::spec_rotation(time.spec_times(levels[l]));
            let weight = linear::inner_product(eigenvectors[l], initial);
            let entry = eigenvectors[l][place];
            R::times_distributes(time, levels[l], shift);
            S::rotations_add(time.spec_times(levels[l]), time.spec_times(shift));
            S::times_associates(weight, own, turn);
            S::times_associates(weight.spec_times(own), turn, entry);
            S::times_commutes(turn, entry);
            S::times_associates(weight.spec_times(own), entry, turn);
        }
        sums::lemma_alike(after, turned, levels.len());
        sums::lemma_factor_behind(before, turn, levels.len());
    }
    assert(found =~= stated);
}

/// Faster levels are a faster clock: with all energies times a constant a state is at a time where
/// it is, with the energies as they are, at the time times the constant.
pub proof fn law_stretched_energies_stretch_time<R: ExactReal, S: ExactEvolving<R>>(
    initial: Seq<S>,
    levels: Seq<R>,
    eigenvectors: Seq<Seq<S>>,
    time: R,
    factor: R,
)
    ensures
        evolved(initial, stretched_levels(levels, factor), eigenvectors, time) == evolved(
            initial,
            levels,
            eigenvectors,
            factor.spec_times(time),
        ),
{
    let fast = stretched_levels(levels, factor);
    let later = factor.spec_times(time);
    let found = evolved(initial, fast, eigenvectors, time);
    let stated = evolved(initial, levels, eigenvectors, later);
    assert forall|place: int| 0 <= place < initial.len() implies #[trigger] found[place]
        == stated[place] by {
        lemma_entry(initial, fast, eigenvectors, time, place, levels.len());
        lemma_entry(initial, levels, eigenvectors, later, place, levels.len());
        let left = |l: int| level_term(initial, fast, eigenvectors, time, place, l);
        let right = |l: int| level_term(initial, levels, eigenvectors, later, place, l);
        assert forall|l: int| 0 <= l < levels.len() implies #[trigger] left(l) == right(l) by {
            R::times_associates(time, factor, levels[l]);
            R::times_commutes(time, factor);
        }
        sums::lemma_alike(left, right, levels.len());
    }
    assert(found =~= stated);
}

/// Superpositions evolve as their parts do.
pub proof fn law_evolution_is_linear<R: ExactReal, S: ExactEvolving<R>>(
    first: Seq<S>,
    factor: S,
    second: Seq<S>,
    levels: Seq<R>,
    eigenvectors: Seq<Seq<S>>,
    time: R,
)
    requires
        first.len() == second.len(),
        levels.len() == first.len(),
        ensemble::square(eigenvectors, levels.len()),
    ensures
        evolved(linear::add_scaled(first, factor, second), levels, eigenvectors, time)
            == linear::add_scaled(
            evolved(first, levels, eigenvectors, time),
            factor,
            evolved(second, levels, eigenvectors, time),
        ),
{
    let both = linear::add_scaled(first, factor, second);
    let found = evolved(both, levels, eigenvectors, time);
    let stated = linear::add_scaled(
        evolved(first, levels, eigenvectors, time),
        factor,
        evolved(second, levels, eigenvectors, time),
    );
    assert forall|place: int| 0 <= place < first.len() implies #[trigger] found[place]
        == stated[place] by {
        lemma_entry(both, levels, eigenvectors, time, place, levels.len());
        lemma_entry(first, levels, eigenvectors, time, place, levels.len());
        lemma_entry(second, levels, eigenvectors, time, place, levels.len());
        let whole = |l: int| level_term(both, levels, eigenvectors, time, place, l);
        let left = |l: int| level_term(first, levels, eigenvectors, time, place, l);
        let right = |l: int| level_term(second, levels, eigenvectors, time, place, l);
        let more = |l: int| factor.spec_times(right(l));
        let parts = |l: int| left(l).spec_plus(more(l));
        assert forall|l: int| 0 <= l < levels.len() implies #[trigger] whole(l) == parts(l) by {
            let vector = eigenvectors[l];
            assert(vector.len() == levels.len());
            let turn = S::spec_rotation(time.spec_times(levels[l]));
            let a = linear::inner_product(vector, first);
            let b = linear::inner_product(vector, second);
            let entry = vector[place];
            exact::lemma_inner_scaled_right(vector, first, factor, second);
            let fb = factor.spec_times(b);
            lemma_sum_times(a, fb, turn);
            lemma_sum_times(a.spec_times(turn), fb.spec_times(turn), entry);
            S::times_associates(factor, b, turn);
            S::times_associates(factor, b.spec_times(turn), entry);
        }
        sums::lemma_alike(whole, parts, levels.len());
        sums::lemma_added(left, more, levels.len());
        sums::lemma_factor(factor, right, levels.len());
    }
    assert(found =~= stated);
}

proof fn lemma_sum_times<S: ExactScalar>(a: S, b: S, c: S)
    ensures
        a.spec_plus(b).spec_times(c) == a.spec_times(c).spec_plus(b.spec_times(c)),
{
    S::times_commutes(a.spec_plus(b), c);
    S::times_distributes(c, a, b);
    S::times_commutes(c, a);
    S::times_commutes(c, b);
}

/// The coefficient of every eigenvector turns by its energy.
pub proof fn law_coefficients_only_turn<R: ExactReal, S: ExactEvolving<R>>(
    initial: Seq<S>,
    levels: Seq<R>,
    eigenvectors: Seq<Seq<S>>,
    time: R,
    level: int,
)
    requires
        levels.len() == initial.len(),
        ensemble::square(eigenvectors, levels.len()),
        orthonormal(eigenvectors),
        0 <= level < levels.len(),
    ensures
        linear::inner_product(
            eigenvectors[level],
            evolved(initial, levels, eigenvectors, time),
        ) == linear::inner_product(eigenvectors[level], initial).spec_times(
            S::spec_rotation(time.spec_times(levels[level])),
        ),
{
    let vector = eigenvectors[level];
    let later = evolved(initial, levels, eigenvectors, time);
    let n = levels.len();
    let weight = |l: int|
        linear::inner_product(eigenvectors[l], initial).spec_times(
            S::spec_rotation(time.spec_times(levels[l])),
        );
    assert(vector.len() == n);
    sums::lemma_inner_product(vector, later);
    let given = |p: int| vector[p].spec_conjugate().spec_times(later[p]);
    let term = |p: int, l: int|
        weight(l).spec_times(vector[p].spec_conjugate().spec_times(eigenvectors[l][p]));
    let by_place = |p: int| total_of(|l: int| term(p, l), n);
    assert forall|p: int| 0 <= p < n implies #[trigger] given(p) == by_place(p) by {
        lemma_entry(initial, levels, eigenvectors, time, p, n);
        let inside = |l: int| level_term(initial, levels, eigenvectors, time, p, l);
        let left = vector[p].spec_conjugate();
        sums::lemma_factor(left, inside, n);
        let scaled = |l: int| left.spec_times(inside(l));
        let terms = |l: int| term(p, l);
        assert forall|l: int| 0 <= l < n implies #[trigger] scaled(l) == terms(l) by {
            let w = weight(l);
            let e = eigenvectors[l][p];
            S::times_associates(left, w, e);
            S::times_commutes(left, w);
            S::times_associates(w, left, e);
        }
        sums::lemma_alike(scaled, terms, n);
    }
    sums::lemma_alike(given, by_place, n);
    sums::lemma_exchanged(term, n, n);
    let by_level = |l: int| total_of(|p: int| term(p, l), n);
    assert forall|l: int| 0 <= l < n implies #[trigger] by_level(l) == weight(l).spec_times(
        linear::inner_product(vector, eigenvectors[l]),
    ) by {
        let pairs = |p: int| vector[p].spec_conjugate().spec_times(eigenvectors[l][p]);
        sums::lemma_factor(weight(l), pairs, n);
        sums::lemma_inner_product(vector, eigenvectors[l]);
        sums::lemma_alike(|p: int| term(p, l), |p: int| weight(l).spec_times(pairs(p)), n);
    }
    assert forall|l: int| 0 <= l < n && l != level implies #[trigger] by_level(l)
        == S::spec_zero() by {
        assert(linear::inner_product(eigenvectors[level], eigenvectors[l]) == S::spec_zero());
        S::times_commutes(weight(l), S::spec_zero());
        S::zero_is_neutral(weight(l));
    }
    sums::lemma_single(by_level, level, n);
    assert(linear::inner_product(eigenvectors[level], eigenvectors[level]) == S::spec_one());
    S::times_commutes(weight(level), S::spec_one());
    S::one_is_neutral(weight(level));
}

/// Evolution for one time and then for another is evolution for their sum.
pub proof fn law_times_add_up<R: ExactReal, S: ExactEvolving<R>>(
    initial: Seq<S>,
    levels: Seq<R>,
    eigenvectors: Seq<Seq<S>>,
    first: R,
    second: R,
)
    requires
        levels.len() == initial.len(),
        ensemble::square(eigenvectors, levels.len()),
        orthonormal(eigenvectors),
    ensures
        evolved(evolved(initial, levels, eigenvectors, first), levels, eigenvectors, second)
            == evolved(initial, levels, eigenvectors, first.spec_plus(second)),
{
    let n = levels.len();
    let middle = evolved(initial, levels, eigenvectors, first);
    let whole = first.spec_plus(second);
    let found = evolved(middle, levels, eigenvectors, second);
    let stated = evolved(initial, levels, eigenvectors, whole);
    assert forall|place: int| 0 <= place < n implies #[trigger] found[place] == stated[place] by {
        lemma_entry(middle, levels, eigenvectors, second, place, n);
        lemma_entry(initial, levels, eigenvectors, whole, place, n);
        let left = |l: int| level_term(middle, levels, eigenvectors, second, place, l);
        let right = |l: int| level_term(initial, levels, eigenvectors, whole, place, l);
        assert forall|l: int| 0 <= l < n implies #[trigger] left(l) == right(l) by {
            law_coefficients_only_turn(initial, levels, eigenvectors, first, l);
            let c = linear::inner_product(eigenvectors[l], initial);
            let a = first.spec_times(levels[l]);
            let b = second.spec_times(levels[l]);
            R::times_commutes(whole, levels[l]);
            R::times_distributes(levels[l], first, second);
            R::times_commutes(first, levels[l]);
            R::times_commutes(second, levels[l]);
            S::rotations_add(a, b);
            S::times_associates(c, S::spec_rotation(a), S::spec_rotation(b));
        }
        sums::lemma_alike(left, right, n);
    }
    assert(found =~= stated);
}

proof fn lemma_sandwich<S: Scalar>(
    matrix: Seq<S>,
    left: Seq<S>,
    right: Seq<S>,
    dimension: nat,
    count: nat,
)
    ensures
        sandwich_between(matrix, left, right, dimension, count) == total_of(
            |p: int|
                left[p / (dimension as int)].spec_conjugate().spec_times(matrix[p]).spec_times(
                    right[p % (dimension as int)],
                ),
            count,
        ),
    decreases count,
{
    if count > 0 {
        lemma_sandwich(matrix, left, right, dimension, (count - 1) as nat);
    }
}

proof fn lemma_evolved_element<R: RealNumber, S: Evolving<R>>(
    within: Seq<S>,
    levels: Seq<R>,
    eigenvectors: Seq<Seq<S>>,
    time: R,
    row: int,
    column: int,
    count: nat,
)
    ensures
        evolved_element(within, levels, eigenvectors, time, row, column, count) == total_of(
            |p: int|
                {
                    let left = p / (eigenvectors.len() as int);
                    let right = p % (eigenvectors.len() as int);
                    eigenvectors[left][row].spec_times(
                        S::spec_rotation(
                            time.spec_times(levels[left].spec_minus(levels[right])),
                        ),
                    ).spec_times(within[p]).spec_times(eigenvectors[right][column].spec_conjugate())
                },
            count,
        ),
    decreases count,
{
    if count > 0 {
        lemma_evolved_element(
            within,
            levels,
            eigenvectors,
            time,
            row,
            column,
            (count - 1) as nat,
        );
    }
}

/// A pure density in an eigensystem is made of the coefficients of its state.
proof fn lemma_within_pure<S: ExactScalar>(
    state: Seq<S>,
    eigenvectors: Seq<Seq<S>>,
    left: int,
    right: int,
)
    requires
        ensemble::square(eigenvectors, state.len()),
        0 <= left < state.len(),
        0 <= right < state.len(),
    ensures
        in_eigensystem(partial_traces::outer_product(state), eigenvectors)[left * state.len()
            + right] == linear::inner_product(eigenvectors[left], state).spec_times(
            linear::inner_product(eigenvectors[right], state).spec_conjugate(),
        ),
{
    let n = state.len();
    let m = n as int;
    let matrix = partial_traces::outer_product(state);
    let (bra, ket) = (eigenvectors[left], eigenvectors[right]);
    assert(bra.len() == n && ket.len() == n);
    partial_traces::lemma_pair(left, right, m, m);
    lemma_sandwich(matrix, bra, ket, n, n * n);
    let first = |i: int| bra[i].spec_conjugate().spec_times(state[i]);
    let second = |j: int| ket[j].spec_conjugate().spec_times(state[j]);
    let mirror = |j: int| second(j).spec_conjugate();
    let term = |i: int, j: int| first(i).spec_times(mirror(j));
    let given = |p: int|
        bra[p / m].spec_conjugate().spec_times(matrix[p]).spec_times(ket[p % m]);
    let flat = |p: int| term(p / m, p % m);
    assert forall|p: int| 0 <= p < n * n implies #[trigger] given(p) == flat(p) by {
        partial_traces::lemma_unpair(p, m, m);
        let (i, j) = (p / m, p % m);
        let (a, b) = (bra[i].spec_conjugate(), state[i]);
        let (c, d) = (state[j].spec_conjugate(), ket[j]);
        S::conjugation_is_linear(ket[j].spec_conjugate(), state[j]);
        S::conjugation_is_linear(ket[j], state[j]);
        S::times_commutes(d, c);
        S::times_associates(a, b, c);
        S::times_associates(a.spec_times(b), c, d);
    }
    sums::lemma_alike(given, flat, n * n);
    sums::lemma_by_rows(term, n, n);
    let rows = |i: int| total_of(|j: int| term(i, j), n);
    let spread = |i: int| total_of(|j: int| first(i).spec_times(mirror(j)), n);
    assert forall|i: int| 0 <= i < n implies #[trigger] rows(i) == spread(i) by {
        sums::lemma_alike(|j: int| term(i, j), |j: int| first(i).spec_times(mirror(j)), n);
    }
    sums::lemma_alike(rows, spread, n);
    sums::lemma_product(first, mirror, n, n);
    sums::lemma_conjugated(second, n);
    sums::lemma_alike(mirror, |j: int| second(j).spec_conjugate(), n);
    sums::lemma_inner_product(bra, state);
    sums::lemma_inner_product(ket, state);
}

/// The phase of a pair of levels is the phase of one against that of the other.
proof fn lemma_phase_of_pair<R: ExactReal, S: ExactEvolving<R>>(time: R, upper: R, lower: R)
    ensures
        S::spec_rotation(time.spec_times(upper.spec_minus(lower))) == S::spec_rotation(
            time.spec_times(upper),
        ).spec_times(S::spec_rotation(time.spec_times(lower)).spec_conjugate()),
{
    let gap = upper.spec_minus(lower);
    let a = time.spec_times(gap);
    let b = time.spec_times(lower);
    let zero = R::spec_zero();
    R::minus_undoes_plus(upper, lower);
    R::times_distributes(time, gap, lower);
    S::rotations_add(a, b);
    S::rotation_undone(b);
    let back = zero.spec_minus(b);
    R::minus_undoes_plus(zero, b);
    R::plus_commutes(back, b);
    S::rotations_add(b, back);
    S::times_associates(S::spec_rotation(a), S::spec_rotation(b), S::spec_rotation(back));
    S::times_commutes(S::spec_rotation(a), S::spec_one());
    S::one_is_neutral(S::spec_rotation(a));
}

/// The density of a pure state evolves as the state does: at every time it is the projector on the
/// state of that time.
pub proof fn law_pure_density_evolves_as_its_state<R: ExactReal, S: ExactEvolving<R>>(
    state: Seq<S>,
    levels: Seq<R>,
    eigenvectors: Seq<Seq<S>>,
    time: R,
)
    requires
        levels.len() == state.len(),
        ensemble::square(eigenvectors, state.len()),
    ensures
        evolved_density(partial_traces::outer_product(state), levels, eigenvectors, time)
            == partial_traces::outer_product(evolved(state, levels, eigenvectors, time)),
{
    let n = state.len();
    let m = n as int;
    let matrix = partial_traces::outer_product(state);
    let within = in_eigensystem(matrix, eigenvectors);
    let later = evolved(state, levels, eigenvectors, time);
    let found = evolved_density(matrix, levels, eigenvectors, time);
    let stated = partial_traces::outer_product(later);
    assert forall|place: int| 0 <= place < n * n implies #[trigger] found[place]
        == stated[place] by {
        partial_traces::lemma_unpair(place, m, m);
        let (row, column) = (place / m, place % m);
        lemma_entry(state, levels, eigenvectors, time, row, n);
        lemma_entry(state, levels, eigenvectors, time, column, n);
        lemma_evolved_element(within, levels, eigenvectors, time, row, column, n * n);
        let first = |l: int| level_term(state, levels, eigenvectors, time, row, l);
        let second = |r: int| level_term(state, levels, eigenvectors, time, column, r);
        let mirror = |r: int| second(r).spec_conjugate();
        let term = |l: int, r: int| first(l).spec_times(mirror(r));
        let flat = |p: int| term(p / m, p % m);
        let given = |p: int|
            {
                let left = p / (eigenvectors.len() as int);
                let right = p % (eigenvectors.len() as int);
                eigenvectors[left][row].spec_times(
                    S::spec_rotation(time.spec_times(levels[left].spec_minus(levels[right]))),
                ).spec_times(within[p]).spec_times(eigenvectors[right][column].spec_conjugate())
            };
        assert forall|p: int| 0 <= p < n * n implies #[trigger] given(p) == flat(p) by {
            partial_traces::lemma_unpair(p, m, m);
            let (l, r) = (p / m, p % m);
            lemma_within_pure(state, eigenvectors, l, r);
            lemma_phase_of_pair::<R, S>(time, levels[l], levels[r]);
            let c = linear::inner_product(eigenvectors[l], state);
            let d = linear::inner_product(eigenvectors[r], state);
            let u = S::spec_rotation(time.spec_times(levels[l]));
            let w = S::spec_rotation(time.spec_times(levels[r]));
            let v = eigenvectors[l][row];
            let x = eigenvectors[r][column];
            S::conjugation_is_linear(d.spec_times(w), x);
            S::conjugation_is_linear(d, w);
            lemma_six(v, u, w.spec_conjugate(), c, d.spec_conjugate(), x.spec_conjugate());
        }
        sums::lemma_alike(given, flat, n * n);
        sums::lemma_by_rows(term, n, n);
        let rows = |l: int| total_of(|r: int| term(l, r), n);
        let spread = |l: int| total_of(|r: int| first(l).spec_times(mirror(r)), n);
        assert forall|l: int| 0 <= l < n implies #[trigger] rows(l) == spread(l) by {
            sums::lemma_alike(|r: int| term(l, r), |r: int| first(l).spec_times(mirror(r)), n);
        }
        sums::lemma_alike(rows, spread, n);
        sums::lemma_product(first, mirror, n, n);
        sums::lemma_conjugated(second, n);
        sums::lemma_alike(mirror, |r: int| second(r).spec_conjugate(), n);
    }
    assert(found =~= stated);
}

/// Six factors in another order.
proof fn lemma_six<S: ExactScalar>(v: S, u: S, w: S, c: S, d: S, x: S)
    ensures
        v.spec_times(u.spec_times(w)).spec_times(c.spec_times(d)).spec_times(x) == c.spec_times(
            u,
        ).spec_times(v).spec_times(d.spec_times(w).spec_times(x)),
{
    // (v (u w)) (c d) = ((v u) w) (c d) = ((v u) c) (w d)
    S::times_associates(v, u, w);
    partial_traces::lemma_four(v.spec_times(u), w, c, d);
    // (v u) c = (c u) v
    S::times_associates(v, u, c);
    S::times_commutes(u, c);
    S::times_commutes(v, c.spec_times(u));
    S::times_commutes(w, d);
    S::times_associates(c.spec_times(u).spec_times(v), d.spec_times(w), x);
}

} // verus!

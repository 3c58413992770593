//! Matrix elements in symmetry sectors: orbits, their sizes and Bloch phases.

use vstd::prelude::*;

use crate::amplitudes::{LocalFactor, ReductionFactor, Turn};
use crate::basis;
use crate::basis::{Basis, Factor};
use crate::boson_algebra;
use crate::digits;
use crate::error::QmbedError;
use crate::lattice;
use crate::lattice_sectors;
use crate::lattice_sectors::SpinLattice;
use crate::orbits;
use crate::orbits::{OrbitAction, SymmetryImage};
use crate::reduction::Reduction;
use crate::spin;
use crate::spin::{SpinBasis1D, SpinModel};
use crate::symbols;

verus! {

/// Where a site goes under a translation by `shift` and, after it, a reflection of the ring.
pub open spec fn destination(site: nat, shift: nat, mirror: bool, sites: nat) -> nat {
    let moved = (site + shift) % sites;
    if mirror {
        (sites - 1 - moved) as nat
    } else {
        moved
    }
}

/// Whether a translation, and after it a reflection where `mirror` is set, carries a word onto
/// another, site by site.
pub open spec fn carries(
    from: u128,
    to: u128,
    shift: nat,
    mirror: bool,
    sites: nat,
    levels: nat,
) -> bool {
    &&& from < digits::power(levels, sites)
    &&& to < digits::power(levels, sites)
    &&& forall|site: nat|
        site < sites ==> #[trigger] digits::digit(
            to as nat,
            levels,
            destination(site, shift, mirror, sites),
        ) == digits::digit(from as nat, levels, site)
}

/// The movements of the ring that a spin basis identifies.
pub open spec fn identifies(model: SpinModel, shift: nat, mirror: bool) -> bool {
    &&& if model.momentum is Some {
        shift < model.sites
    } else {
        shift == 0
    }
    &&& mirror ==> model.parity is Some
}

/// Whether a movement that the basis identifies carries a word onto another.
pub open spec fn related(model: SpinModel, from: u128, to: u128) -> bool {
    exists|shift: nat, mirror: bool|
        #![trigger carries(from, to, shift, mirror, model.sites as nat, model.chain().levels())]
        identifies(model, shift, mirror) && carries(
            from,
            to,
            shift,
            mirror,
            model.sites as nat,
            model.chain().levels(),
        )
}

/// The words onto which a word is carried.
pub open spec fn related_words(model: SpinModel, word: u128) -> Set<u128> {
    Set::new(|other: u128| related(model, word, other))
}

/// The phase of a movement in a sector, in parts of the full circle of `2 * sites`: every site of
/// a translation counts the momentum twice, and a reflection counts half of the circle in an odd
/// sector.
pub open spec fn character(model: SpinModel, shift: nat, mirror: bool) -> int {
    let k = match model.momentum {
        Some(k) => k as int,
        None => 0,
    };
    (2 * k * shift + if mirror && model.parity == Some(-1i8) {
        model.sites as int
    } else {
        0
    }) % (2 * model.sites)
}

/// Whether a reduction factor belongs to a target and its representative: no other row of the
/// basis is carried onto the target, the sizes are those of the two orbits, and the phase is the character of every movement that carries the
/// representative onto the target.
pub open spec fn bloch_factor(
    model: SpinModel,
    source: u128,
    representative: u128,
    target: u128,
    factor: ReductionFactor<Turn>,
) -> bool {
    &&& related(model, representative, target)
    &&& forall|row: u128|
        #![trigger related(model, row, target)]
        model.orbits.states@.contains(row) && related(model, row, target) ==> row
            == representative
    &&& factor.source_orbit == related_words(model, source).len()
    &&& factor.target_orbit == related_words(model, representative).len()
    &&& factor.phase.circle == 2 * model.sites
    &&& forall|shift: nat, mirror: bool|
        identifies(model, shift, mirror) && #[trigger] carries(
            representative,
            target,
            shift,
            mirror,
            model.sites as nat,
            model.chain().levels(),
        ) ==> factor.phase.steps == character(model, shift, mirror)
}

proof fn lemma_destination_source(site: nat, shift: nat, sites: nat)
    requires
        site < sites,
    ensures
        destination(site, shift, false, sites) < sites,
        lattice::rotation_source(destination(site, shift, false, sites), shift, sites) == site,
        destination(lattice::rotation_source(site, shift, sites), shift, false, sites) == site,
        lattice::rotation_source(site, shift, sites) < sites,
{
    let n = sites as int;
    let s = shift as int % n;
    let q = shift as int / n;
    vstd::arithmetic::div_mod::lemma_fundamental_div_mod(shift as int, n);
    vstd::arithmetic::div_mod::lemma_mod_bound(shift as int, n);
    vstd::arithmetic::div_mod::lemma_mod_multiples_vanish(q, site + s, n);
    assert(n * q + (site + s) == site + shift);
    let moved = (site + s) % n;
    lemma_wrap(site + s, n);
    lemma_wrap(moved + n - s, n);
    let back = (site + n - s) % n;
    lemma_wrap(site + n - s, n);
    vstd::arithmetic::div_mod::lemma_mod_multiples_vanish(q, back + s, n);
    assert(n * q + (back + s) == back + shift);
    lemma_wrap(back + s, n);
}

/// Remainders of numbers below twice the divisor.
proof fn lemma_wrap(number: int, divisor: int)
    requires
        0 <= number < 2 * divisor,
    ensures
        number % divisor == if number < divisor {
            number
        } else {
            number - divisor
        },
{
    if number < divisor {
        vstd::arithmetic::div_mod::lemma_small_mod(number as nat, divisor as nat);
    } else {
        vstd::arithmetic::div_mod::lemma_fundamental_div_mod_converse(
            number,
            divisor,
            1,
            number - divisor,
        );
    }
}

/// A translation carries a word onto its rotated form and onto nothing else.
pub proof fn lemma_rotation_carries(from: u128, to: u128, shift: nat, sites: nat, base: nat)
    requires
        base > 0,
        sites > 0,
        from < digits::power(base, sites),
    ensures
        carries(from, to, shift, false, sites, base) <==> to == lattice::rotated(
            from as nat,
            shift,
            sites,
            base,
        ),
{
    let image = lattice::rotated(from as nat, shift, sites, base);
    lattice::lemma_rotated_bound(from as nat, shift, sites, base);
    assert forall|site: nat| site < sites implies #[trigger] digits::digit(
        image,
        base,
        destination(site, shift, false, sites),
    ) == digits::digit(from as nat, base, site) by {
        lemma_destination_source(site, shift, sites);
        lattice::lemma_rotated_digit(
            from as nat,
            shift,
            sites,
            base,
            destination(site, shift, false, sites),
        );
    }
    if carries(from, to, shift, false, sites, base) {
        assert forall|site: nat| site < sites implies #[trigger] digits::digit(
            to as nat,
            base,
            site,
        ) == digits::digit(image, base, site) by {
            lemma_destination_source(site, shift, sites);
            let source = lattice::rotation_source(site, shift, sites);
            assert(destination(source, shift, false, sites) == site);
            assert(digits::digit(
                to as nat,
                base,
                destination(source, shift, false, sites),
            ) == digits::digit(from as nat, base, source));
            assert(digits::digit(
                image,
                base,
                destination(source, shift, false, sites),
            ) == digits::digit(from as nat, base, source));
        }
        lattice::lemma_digits_identify(to as nat, image, sites, base);
    }
}

/// A movement carries a word onto its image and onto nothing else.
proof fn lemma_carries(ring: &SpinLattice, from: u128, to: u128, shift: nat, mirror: bool)
    requires
        ring.domain(from),
    ensures
        carries(from, to, shift, mirror, ring.spec_sites(), ring.spec_base()) <==> to
            == ring.moved(from as nat, shift, mirror),
{
    let n = ring.spec_sites();
    let b = ring.spec_base();
    lattice_sectors::lemma_ring_facts(ring);
    let turned = lattice::rotated(from as nat, shift, n, b);
    let image = ring.moved(from as nat, shift, mirror);
    lattice::lemma_rotated_bound(from as nat, shift, n, b);
    ring.lemma_moved_bound(from as nat, shift, mirror);
    assert forall|site: nat| site < n implies #[trigger] digits::digit(
        image,
        b,
        destination(site, shift, mirror, n),
    ) == digits::digit(from as nat, b, site) by {
        lemma_destination_source(site, shift, n);
        let moved = destination(site, shift, false, n);
        lattice::lemma_rotated_digit(from as nat, shift, n, b, moved);
        if mirror {
            let place = destination(site, shift, true, n);
            lattice::lemma_reflected_digit(turned, n, b, place);
            assert((n - 1 - place) as nat == moved);
        }
    }
    if carries(from, to, shift, mirror, n, b) {
        assert forall|site: nat| site < n implies #[trigger] digits::digit(to as nat, b, site)
            == digits::digit(image, b, site) by {
            let plain = if mirror {
                (n - 1 - site) as nat
            } else {
                site
            };
            lemma_destination_source(plain, shift, n);
            let source = lattice::rotation_source(plain, shift, n);
            assert(destination(source, shift, mirror, n) == site);
            assert(digits::digit(
                to as nat,
                b,
                destination(source, shift, mirror, n),
            ) == digits::digit(from as nat, b, source));
            assert(digits::digit(
                image,
                b,
                destination(source, shift, mirror, n),
            ) == digits::digit(from as nat, b, source));
        }
        lattice::lemma_digits_identify(to as nat, image, n, b);
    }
}

/// The ring of a reduced basis.
proof fn lemma_ring(basis: &SpinBasis1D) -> (ring: SpinLattice)
    requires
        basis.wf(),
        basis@.reduced(),
    ensures
        ring.wf(),
        ring.spec_sites() == basis@.sites,
        ring.spec_base() == basis@.chain().levels(),
        ring.spec_momentum() == basis@.momentum,
        ring.spec_parity() == basis@.parity,
        orbits::sector_of(&ring, basis@.parents, basis@.orbits),
        orbits::closed_under(&ring, basis@.parents),
        forall|k: int|
            0 <= k < basis@.parents.len() ==> ring.domain(#[trigger] basis@.parents[k]),
{
    let model = basis@;
    let ring = lattice_sectors::lemma_ring_exists(
        model.sites,
        model.chain().levels() as u128,
        model.momentum,
        model.parity,
    );
    spin::law_symmetry_keeps_magnetization(&ring, model.parents, model.up, model.sectors);
    assert forall|k: int| 0 <= k < model.parents.len() implies ring.domain(
        #[trigger] model.parents[k],
    ) by {
        assert(model.parents.contains(model.parents[k]));
    }
    ring
}

/// The movements that a basis identifies are the elements of its ring.
proof fn lemma_related(basis: &SpinBasis1D, ring: &SpinLattice, from: u128, to: u128)
    requires
        ring.wf(),
        ring.spec_sites() == basis@.sites,
        ring.spec_base() == basis@.chain().levels(),
        ring.spec_momentum() == basis@.momentum,
        ring.spec_parity() == basis@.parity,
        ring.domain(from),
    ensures
        related(basis@, from, to) <==> orbits::in_orbit(ring, from, to),
        forall|shift: nat, mirror: bool|
            identifies(basis@, shift, mirror) && #[trigger] carries(
                from,
                to,
                shift,
                mirror,
                basis@.sites as nat,
                basis@.chain().levels(),
            ) ==> ring.element_of(shift, mirror) < ring.order() && ring.image(
                from,
                ring.element_of(shift, mirror),
            ) == to && ring.shift_of(ring.element_of(shift, mirror)) == shift && ring.mirrored(
                ring.element_of(shift, mirror),
            ) == mirror,
{
    let model = basis@;
    let n = model.sites as nat;
    let b = model.chain().levels();
    lattice_sectors::lemma_ring_facts(ring);
    assert forall|shift: nat, mirror: bool|
        identifies(model, shift, mirror) && #[trigger] carries(
            from,
            to,
            shift,
            mirror,
            n,
            b,
        ) implies ring.element_of(shift, mirror) < ring.order() && ring.image(
        from,
        ring.element_of(shift, mirror),
    ) == to && ring.shift_of(ring.element_of(shift, mirror)) == shift && ring.mirrored(
        ring.element_of(shift, mirror),
    ) == mirror by {
        ring.lemma_element(shift, mirror);
        lemma_carries(ring, from, to, shift, mirror);
    }
    if related(model, from, to) {
        let (shift, mirror) = choose|shift: nat, mirror: bool|
            #![trigger carries(from, to, shift, mirror, n, b)]
            identifies(model, shift, mirror) && carries(from, to, shift, mirror, n, b);
        assert(carries(from, to, shift, mirror, n, b));
        assert(ring.image(from, ring.element_of(shift, mirror)) == to);
    }
    if orbits::in_orbit(ring, from, to) {
        let e = choose|e: nat| e < ring.order() && #[trigger] ring.image(from, e) == to;
        ring.lemma_parts(e);
        let shift = ring.shift_of(e);
        let mirror = ring.mirrored(e);
        ring.lemma_moved_bound(from as nat, shift, mirror);
        lemma_carries(ring, from, to, shift, mirror);
        assert(identifies(model, shift, mirror));
        assert(carries(from, to, shift, mirror, n, b));
    }
}

/// A state belongs to a sector: some row of the basis is carried onto it.
pub open spec fn belongs(model: SpinModel, word: u128) -> bool {
    exists|row: u128| #[trigger] model.orbits.states@.contains(row) && related(model, row, word)
}

proof fn lemma_table(basis: &SpinBasis1D, source: u128, target: u128)
    requires
        basis.wf(),
        basis@.reduced(),
        basis@.orbits.states@.contains(source),
    ensures
        basis@.orbits.lookup@.contains_key(target) <==> belongs(basis@, target),
        basis@.orbits.lookup@.contains_key(target) ==> {
            let image = basis@.orbits.lookup@[target];
            &&& basis@.orbits.states@.contains(image.representative)
            &&& image.orbit_size > 0
            &&& bloch_factor(
                basis@,
                source,
                image.representative,
                target,
                spin::reduction_of(image, basis@.orbit_size_of(source), basis@.circle()),
            )
            &&& forall|row: u128|
                #![trigger related(basis@, row, target)]
                basis@.orbits.states@.contains(row) && related(basis@, row, target) ==> row
                    == image.representative
        },
{
    let model = basis@;
    let ring = lemma_ring(basis);
    let states = model.orbits.states@;
    let lookup = model.orbits.lookup@;
    lattice_sectors::lemma_ring_facts(&ring);
    lattice_sectors::law_sector_is_made_of_orbits(&ring, model.parents, model.orbits);
    assert forall|row: u128| #[trigger] states.contains(row) implies ring.domain(row) by {
        assert(orbits::reached(&ring, model.parents, row));
        assert(model.parents.contains(row));
        let k = model.parents.index_of(row);
        assert(ring.domain(model.parents[k]));
    }
    if belongs(model, target) {
        let row = choose|row: u128| #[trigger] states.contains(row) && related(model, row, target);
        lemma_related(basis, &ring, row, target);
        let i = states.index_of(row);
        assert(orbits::in_orbit(&ring, states[i], target));
        assert(orbits::reached(&ring, states, target));
    }
    if lookup.contains_key(target) {
        assert(orbits::reached(&ring, states, target));
        let i = choose|i: int|
            0 <= i < states.len() && orbits::in_orbit(&ring, #[trigger] states[i], target);
        let image = lookup[target];
        let row = states[i];
        assert(states.contains(row));
        assert(image.representative == row);
        lemma_related(basis, &ring, row, target);
        assert(belongs(model, target));
        lemma_orbit_words(basis, &ring, row);
        lemma_orbit_words(basis, &ring, source);
        let j = states.index_of(source);
        assert(states[j] == source);
        assert(model.orbits.orbit_sizes@[j] == orbits::orbit_set(&ring, states[j]).len());
        assert(orbits::describes(&ring, target, image));
        orbits::lemma_orbit_equivalence(&ring, row, target);
        orbits::lemma_orbit_not_empty(&ring, row);
        assert forall|other: u128|
            #![trigger related(model, other, target)]
            states.contains(other) && related(model, other, target) implies other == row by {
            lemma_related(basis, &ring, other, target);
            let o = states.index_of(other);
            assert(orbits::in_orbit(&ring, states[o], target));
        }
        assert forall|shift: nat, mirror: bool|
            identifies(model, shift, mirror) && #[trigger] carries(
                row,
                target,
                shift,
                mirror,
                model.sites as nat,
                model.chain().levels(),
            ) implies image.steps == character(model, shift, mirror) by {
            let element = ring.element_of(shift, mirror);
            assert(ring.image(row, element) == target);
            assert(ring.steps(row, element) == image.steps);
            let k = match model.momentum {
                Some(k) => k as int,
                None => 0,
            };
            assert(2 * (k * shift) == 2 * k * shift) by (nonlinear_arith);
        }
    }
}

proof fn lemma_orbit_words(basis: &SpinBasis1D, ring: &SpinLattice, word: u128)
    requires
        ring.wf(),
        ring.spec_sites() == basis@.sites,
        ring.spec_base() == basis@.chain().levels(),
        ring.spec_momentum() == basis@.momentum,
        ring.spec_parity() == basis@.parity,
        ring.domain(word),
    ensures
        orbits::orbit_set(ring, word) == related_words(basis@, word),
{
    assert forall|other: u128| orbits::orbit_set(ring, word).contains(other) <==> related_words(
        basis@,
        word,
    ).contains(other) by {
        lemma_related(basis, ring, word, other);
    }
    assert(orbits::orbit_set(ring, word) =~= related_words(basis@, word));
}

/// Which branches of a local action are kept, in order.
spec fn kept_places(
    branches: Seq<(u128, Seq<LocalFactor>)>,
    lookup: Map<u128, SymmetryImage>,
) -> Seq<int>
    decreases branches.len(),
{
    if branches.len() == 0 {
        Seq::empty()
    } else {
        let earlier = kept_places(branches.drop_last(), lookup);
        if lookup.contains_key(branches.last().0) {
            earlier.push(branches.len() - 1)
        } else {
            earlier
        }
    }
}

proof fn lemma_kept_places(
    branches: Seq<(u128, Seq<LocalFactor>)>,
    lookup: Map<u128, SymmetryImage>,
    source_orbit: usize,
    circle: usize,
)
    ensures
        ({
            let places = kept_places(branches, lookup);
            let list = spin::reduced_transitions(branches, lookup, source_orbit, circle);
            &&& places.len() == list.len()
            &&& forall|i: int, j: int| 0 <= i < j < places.len() ==> places[i] < places[j]
            &&& forall|i: int|
                0 <= i < places.len() ==> {
                    let place = #[trigger] places[i];
                    &&& 0 <= place < branches.len()
                    &&& lookup.contains_key(branches[place].0)
                    &&& list[i].0 == lookup[branches[place].0].representative
                    &&& list[i].1 == basis::local_factors::<Turn>(branches[place].1).push(
                        Factor::Reduced(
                            spin::reduction_of(
                                lookup[branches[place].0],
                                source_orbit,
                                circle,
                            ),
                        ),
                    )
                }
            &&& forall|place: int|
                0 <= place < branches.len() && lookup.contains_key((#[trigger] branches[place]).0)
                    ==> places.contains(place)
        }),
    decreases branches.len(),
{
    if branches.len() > 0 {
        let less = branches.drop_last();
        lemma_kept_places(less, lookup, source_orbit, circle);
        let before = kept_places(less, lookup);
        let places = kept_places(branches, lookup);
        let list = spin::reduced_transitions(branches, lookup, source_orbit, circle);
        let earlier = spin::reduced_transitions(less, lookup, source_orbit, circle);
        assert forall|i: int| 0 <= i < places.len() implies {
            let place = #[trigger] places[i];
            &&& 0 <= place < branches.len()
            &&& lookup.contains_key(branches[place].0)
            &&& list[i].0 == lookup[branches[place].0].representative
            &&& list[i].1 == basis::local_factors::<Turn>(branches[place].1).push(
                Factor::Reduced(
                    spin::reduction_of(lookup[branches[place].0], source_orbit, circle),
                ),
            )
        } by {
            if i < before.len() {
                assert(places[i] == before[i]);
                assert(list[i] == earlier[i]);
                assert(branches[places[i]] == less[places[i]]);
            }
        }
        assert forall|place: int|
            0 <= place < branches.len() && lookup.contains_key(
                (#[trigger] branches[place]).0,
            ) implies places.contains(place) by {
            if place < less.len() {
                assert(less[place] == branches[place]);
                let i = before.index_of(place);
                assert(places[i] == place);
            } else {
                assert(places.last() == place);
            }
        }
    }
}

/// Matrix elements in a symmetry sector are those between the normalized symmetric vectors. Each
/// branch of a local action onto a word that belongs to the sector, and no other branch, gives one
/// transition, in order: onto the representative of the word, with the local factors of the branch
/// and one reduction factor. That factor holds the sizes of the orbits of the source and of the
/// representative and the phase of the word, which is the character of every movement of the ring
/// that carries the representative onto the word. The same phase and size are the coefficient of
/// the word in the symmetric vector.
pub proof fn law_sector_transitions_have_bloch_phases(
    basis: &SpinBasis1D,
    state: u128,
    operator: Seq<char>,
    sites: Seq<usize>,
) -> (places: Seq<int>)
    requires
        basis.wf(),
        basis@.reduced(),
        basis.spec_states().contains(state),
        spin::spin_action(basis@.chain(), state, operator, sites) is Ok,
    ensures
        ({
            let branches = spin::spin_action(basis@.chain(), state, operator, sites)->Ok_0;
            let list = basis.spec_transitions(state, operator, sites)->Ok_0;
            &&& basis.spec_transitions(state, operator, sites) is Ok
            &&& places.len() == list.len()
            &&& forall|i: int, j: int| 0 <= i < j < places.len() ==> places[i] < places[j]
            &&& forall|place: int|
                0 <= place < branches.len() ==> (#[trigger] belongs(basis@, branches[place].0)
                    <==> places.contains(place))
            &&& forall|i: int|
                0 <= i < places.len() ==> {
                    let (word, factors) = branches[#[trigger] places[i]];
                    &&& 0 <= places[i] < branches.len()
                    &&& basis.spec_states().contains(list[i].0)
                    &&& list[i].1.len() == factors.len() + 1
                    &&& forall|f: int|
                        0 <= f < factors.len() ==> list[i].1[f] == Factor::<Turn>::Local(
                            #[trigger] factors[f],
                        )
                    &&& list[i].1.last() matches Factor::Reduced(reduced) && bloch_factor(
                        basis@,
                        state,
                        list[i].0,
                        word,
                        reduced,
                    ) && basis.spec_reduction(word) == Ok::<
                        Option<(u128, Turn, usize)>,
                        QmbedError,
                    >(Some((list[i].0, reduced.phase, reduced.target_orbit)))
                }
        }),
{
    let model = basis@;
    let branches = spin::spin_action(model.chain(), state, operator, sites)->Ok_0;
    let list = basis.spec_transitions(state, operator, sites)->Ok_0;
    let lookup = model.orbits.lookup@;
    let places = kept_places(branches, lookup);
    lemma_kept_places(branches, lookup, model.orbit_size_of(state), model.circle());
    assert forall|i: int| 0 <= i < places.len() implies {
        let (word, factors) = branches[#[trigger] places[i]];
        &&& 0 <= places[i] < branches.len()
        &&& basis.spec_states().contains(list[i].0)
        &&& list[i].1.len() == factors.len() + 1
        &&& forall|f: int|
            0 <= f < factors.len() ==> list[i].1[f] == Factor::<Turn>::Local(#[trigger] factors[f])
        &&& list[i].1.last() matches Factor::Reduced(reduced) && bloch_factor(
            model,
            state,
            list[i].0,
            word,
            reduced,
        ) && basis.spec_reduction(word) == Ok::<Option<(u128, Turn, usize)>, QmbedError>(
            Some((list[i].0, reduced.phase, reduced.target_orbit)),
        )
    } by {
        lemma_table(basis, state, branches[places[i]].0);
    }
    assert forall|place: int| 0 <= place < branches.len() implies (#[trigger] belongs(
        model,
        branches[place].0,
    ) <==> places.contains(place)) by {
        lemma_table(basis, state, branches[place].0);
        if places.contains(place) {
            let i = places.index_of(place);
            assert(places[i] == place);
        }
    }
    places
}

/// One raised spin among lowered ones hops around a ring with the phase of its momentum: a hop of
/// one spin one half over `distance` sites gives the state back, times the two ladder amplitudes
/// and the phase `distance * k` in parts of the number of sites. A hop to the left and one to the
/// right have opposite phases, so that the two add up to twice the cosine of the momentum.
pub proof fn law_magnon_hops_with_its_momentum(
    basis: &SpinBasis1D,
    operator: Seq<char>,
    distance: usize,
    k: usize,
)
    requires
        basis.wf(),
        basis@.spin_twice == 1,
        basis@.momentum == Some(k),
        basis@.parity is None,
        basis.spec_states().contains(1),
        0 < distance < basis@.sites,
        symbols::without_separators(operator) == seq!['+', '-'],
    ensures
        ({
            let list = basis.spec_transitions(1, operator, seq![distance, 0])->Ok_0;
            let back = basis.spec_transitions(
                1,
                operator,
                seq![(basis@.sites - distance) as usize, 0],
            )->Ok_0;
            &&& basis.spec_transitions(1, operator, seq![distance, 0]) is Ok
            &&& list.len() == 1
            &&& list[0].0 == 1
            &&& list[0].1.len() == 3
            &&& list[0].1[0] == Factor::<Turn>::Local(
                spin::lower_factor(basis@.normalization, 1, 1),
            )
            &&& list[0].1[1] == Factor::<Turn>::Local(
                spin::raise_factor(basis@.normalization, 1, 0),
            )
            &&& list[0].1[2] matches Factor::Reduced(reduced) && {
                &&& reduced.source_orbit == reduced.target_orbit
                &&& reduced.phase.circle == 2 * basis@.sites
                &&& reduced.phase.steps == (2 * k * distance) % (2 * basis@.sites)
                &&& back[0].1[2] matches Factor::Reduced(opposite) && (reduced.phase.steps
                    + opposite.phase.steps) % (2 * basis@.sites) == 0
            }
        }),
{
    let other = (basis@.sites - distance) as usize;
    lemma_magnon(basis, operator, distance, k);
    lemma_magnon(basis, operator, other, k);
    let n = basis@.sites as int;
    let (a, b) = (2 * k * distance, 2 * k * other);
    assert(a + b == k * (2 * n)) by (nonlinear_arith)
        requires
            a == 2 * k * distance,
            b == 2 * k * other,
            distance + other == n,
    ;
    vstd::arithmetic::div_mod::lemma_mod_multiples_basic(k as int, 2 * n);
    vstd::arithmetic::div_mod::lemma_add_mod_noop(a, b, 2 * n);
}

proof fn lemma_magnon(basis: &SpinBasis1D, operator: Seq<char>, distance: usize, k: usize)
    requires
        basis.wf(),
        basis@.spin_twice == 1,
        basis@.momentum == Some(k),
        basis@.parity is None,
        basis.spec_states().contains(1),
        0 < distance < basis@.sites,
        symbols::without_separators(operator) == seq!['+', '-'],
    ensures
        ({
            let list = basis.spec_transitions(1, operator, seq![distance, 0])->Ok_0;
            &&& basis.spec_transitions(1, operator, seq![distance, 0]) is Ok
            &&& list.len() == 1
            &&& list[0].0 == 1
            &&& list[0].1.len() == 3
            &&& list[0].1[0] == Factor::<Turn>::Local(
                spin::lower_factor(basis@.normalization, 1, 1),
            )
            &&& list[0].1[1] == Factor::<Turn>::Local(
                spin::raise_factor(basis@.normalization, 1, 0),
            )
            &&& list[0].1[2] matches Factor::Reduced(reduced) && {
                &&& reduced.source_orbit == reduced.target_orbit
                &&& reduced.phase.circle == 2 * basis@.sites
                &&& reduced.phase.steps == (2 * k * distance) % (2 * basis@.sites)
            }
        }),
{
    let model = basis@;
    let chain = model.chain();
    let n = model.sites as nat;
    let d = distance as nat;
    let places = seq![distance, 0usize];
    assert(chain.levels() == 2);
    let far = digits::power(2, d);
    digits::lemma_power_monotone(2, d, (n - 1) as nat);
    digits::lemma_power_positive(2, (n - 1) as nat);
    digits::lemma_power_adds(2, 1, (n - 1) as nat);
    digits::lemma_power_positive(2, d);
    assert(digits::power(2, 1) == 2) by {
        reveal_with_fuel(digits::power, 2);
    }
    assert(digits::power(2, 0) == 1);
    assert(digits::power(2, n) == 2 * digits::power(2, (n - 1) as nat));
    assert(far < digits::power(2, n));
    let target = far as u128;
    assert forall|site: nat| #[trigger] digits::digit(0, 2, site) == 0 by {
        digits::lemma_power_positive(2, site);
        vstd::arithmetic::div_mod::lemma_div_of0(digits::power(2, site) as int);
    }
    assert forall|site: nat| #[trigger] digits::digit(1, 2, site) == if site == 0 {
        1nat
    } else {
        0nat
    } by {
        assert(digits::digit(0, 2, 0) == 0);
        boson_algebra::lemma_moved_digit(0, 0, 2, site);
        assert(digits::digit(0, 2, site) == 0);
    }
    assert forall|site: nat| #[trigger] digits::digit(far, 2, site) == if site == d {
        1nat
    } else {
        0nat
    } by {
        assert(digits::digit(0, 2, d) == 0);
        boson_algebra::lemma_moved_digit(0, d, 2, site);
        assert(digits::digit(0, 2, site) == 0);
    }
    let lower = spin::lower_factor(model.normalization, 1, 1);
    let raise = spin::raise_factor(model.normalization, 1, 0);
    let word = seq!['+', '-'];
    let branches = spin::spin_action(chain, 1, operator, places);
    assert(branches == spin::spin_branches(chain, 1, word, places, 2, Seq::empty()));
    assert(digits::digit(1, 2, 0) == 1);
    assert(digits::digit(0, 2, d) == 0);
    reveal_with_fuel(spin::spin_branches, 3);
    assert(branches == Ok::<Seq<(u128, Seq<LocalFactor>)>, QmbedError>(
        seq![(target, Seq::empty().push(lower).push(raise))],
    ));
    assert(carries(1, target, d, false, n, 2)) by {
        assert forall|site: nat| site < n implies #[trigger] digits::digit(
            target as nat,
            2,
            destination(site, d, false, n),
        ) == digits::digit(1, 2, site) by {
            lemma_wrap((site + d) as int, n as int);
            assert(digits::digit(far, 2, destination(site, d, false, n)) == if destination(
                site,
                d,
                false,
                n,
            ) == d {
                1nat
            } else {
                0nat
            });
        }
    }
    assert(identifies(model, d, false));
    assert(related(model, 1, target));
    assert(belongs(model, target));
    let kept = law_sector_transitions_have_bloch_phases(basis, 1, operator, places);
    let list = basis.spec_transitions(1, operator, places)->Ok_0;
    let found = branches->Ok_0;
    assert(found[0].0 == target);
    assert(belongs(model, found[0].0));
    assert(kept.contains(0));
    assert(kept.len() == 1) by {
        if kept.len() > 1 {
            assert(0 <= kept[0] < found.len());
            assert(0 <= kept[1] < found.len());
        }
    }
    assert(kept[0] == 0);
    let factors = found[0].1;
    assert(factors[0] == lower);
    assert(factors[1] == raise);
    assert(list[0].1[0] == Factor::<Turn>::Local(factors[0]));
    assert(list[0].1[1] == Factor::<Turn>::Local(factors[1]));
}

} // verus!

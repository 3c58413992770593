//! Matrix elements of fermions in momentum sectors.

use vstd::arithmetic::power2::pow2;
use vstd::prelude::*;

use crate::amplitudes::{ReductionFactor, Turn};
use crate::basis;
use crate::basis::{Basis, Factor};
use crate::bits;
use crate::bloch::carries;
use crate::digits;
use crate::error::QmbedError;
use crate::fermion;
use crate::fermion::{FermionModel, SpinlessFermionBasis1D};
use crate::lattice;
use crate::lattice_sectors;
use crate::lattice_sectors::FermionRing;
use crate::orbits;
use crate::orbits::OrbitAction;
use crate::reduction::Reduction;
use crate::spin;
use crate::symbols;
use crate::weights;

verus! {

/// Number of occupied sites from `start` up to `end`.
pub open spec fn occupied(word: nat, start: nat, end: nat) -> nat
    decreases end,
{
    if start >= end {
        0
    } else {
        occupied(word, start, (end - 1) as nat) + digits::digit(word, 2, (end - 1) as nat)
    }
}

/// Whether a translation carries a word onto another, site by site.
pub open spec fn translates(model: FermionModel, from: u128, to: u128, shift: nat) -> bool {
    shift < model.sites && carries(from, to, shift, false, model.sites as nat, 2)
}

/// Whether some translation carries a word onto another.
pub open spec fn related(model: FermionModel, from: u128, to: u128) -> bool {
    exists|shift: nat| #[trigger] translates(model, from, to, shift)
}

/// The words onto which a word is carried.
pub open spec fn related_words(model: FermionModel, word: u128) -> Set<u128> {
    Set::new(|other: u128| related(model, word, other))
}

/// The phase of a translation of a word, in parts of the full circle of `2 * sites`: every site of
/// the translation counts the momentum twice, and every fermion that is carried around the end of
/// the ring passes all those that are not and counts half of the circle for each of them.
pub open spec fn character(model: FermionModel, word: u128, shift: nat) -> int {
    let n = model.sites as nat;
    let k = match model.momentum {
        Some(k) => k as int,
        None => 0,
    };
    let stay = occupied(word as nat, 0, (n - shift) as nat);
    let around = occupied(word as nat, (n - shift) as nat, n);
    (2 * k * shift + if (around * stay) % 2 == 1 {
        n as int
    } else {
        0
    }) % (2 * model.sites)
}

/// Whether a reduction factor belongs to a target and its representative: no other row of the
/// basis is carried onto the target, the sizes are those of the two orbits, and the phase is that
/// of every translation that carries the representative onto the target.
pub open spec fn bloch_factor(
    model: FermionModel,
    source: u128,
    representative: u128,
    target: u128,
    factor: ReductionFactor<Turn>,
) -> bool {
    &&& related(model, representative, target)
    &&& forall|row: u128|
        #![trigger related(model, row, target)]
        model.orbits.states@.contains(row) && related(model, row, target) ==> row
            == representative
    &&& factor.source_orbit == related_words(model, source).len()
    &&& factor.target_orbit == related_words(model, representative).len()
    &&& factor.phase.circle == 2 * model.sites
    &&& forall|shift: nat| #[trigger]
        translates(model, representative, target, shift) ==> factor.phase.steps == character(
            model,
            representative,
            shift,
        )
}

/// A state belongs to a sector: some row of the basis is carried onto it.
pub open spec fn belongs(model: FermionModel, word: u128) -> bool {
    exists|row: u128| #[trigger] model.orbits.states@.contains(row) && related(model, row, word)
}

proof fn lemma_occupied_alike(left: nat, right: nat, offset: nat, start: nat, end: nat)
    requires
        forall|site: nat|
            start <= site < end ==> #[trigger] digits::digit(left, 2, site) == digits::digit(
                right,
                2,
                site + offset,
            ),
    ensures
        occupied(left, start, end) == occupied(right, start + offset, end + offset),
    decreases end,
{
    if start < end {
        lemma_occupied_alike(left, right, offset, start, (end - 1) as nat);
        assert(digits::digit(left, 2, (end - 1) as nat) == digits::digit(
            right,
            2,
            (end - 1) as nat + offset,
        ));
        assert((end + offset - 1) as nat == (end - 1) as nat + offset);
    }
}

proof fn lemma_occupied_split(word: nat, middle: nat, end: nat)
    requires
        middle <= end,
    ensures
        occupied(word, 0, end) == occupied(word, 0, middle) + occupied(word, middle, end),
    decreases end,
{
    if middle < end {
        lemma_occupied_split(word, middle, (end - 1) as nat);
    }
}

proof fn lemma_occupied_ones(word: nat, sites: nat)
    requires
        word < pow2(sites),
    ensures
        occupied(word, 0, sites) == bits::ones(word),
    decreases sites,
{
    if sites == 0 {
        vstd::arithmetic::power2::lemma2_to64();
    } else {
        let e = (sites - 1) as nat;
        digits::lemma_power_two(e);
        digits::lemma_power_two(sites);
        digits::lemma_power_positive(2, e);
        let p = digits::power(2, e);
        let high = word / p;
        let low = word % p;
        vstd::arithmetic::power2::lemma_pow2_unfold(sites);
        vstd::arithmetic::div_mod::lemma_fundamental_div_mod(word as int, p as int);
        vstd::arithmetic::div_mod::lemma_mod_bound(word as int, p as int);
        assert(high < 2) by (nonlinear_arith)
            requires
                word == p * high + low,
                word < 2 * p,
                0 <= low,
                p > 0,
        ;
        assert(high * p == p * high) by (nonlinear_arith);
        bits::lemma_ones_split(high, low, e);
        reveal_with_fuel(bits::ones, 3);
        assert(bits::ones(high) == high);
        lemma_occupied_ones(low, e);
        assert forall|site: nat| 0 <= site < e implies #[trigger] digits::digit(low, 2, site)
            == digits::digit(word, 2, site + 0) by {
            lattice::lemma_digit_parts(word, e, 2, site);
        }
        lemma_occupied_alike(low, word, 0, 0, e);
        assert(digits::digit(word, 2, e) == high);
    }
}

/// The sign of a translation in terms of occupied sites.
proof fn lemma_sign(word: u128, shift: nat, sites: nat)
    requires
        word < pow2(sites),
        shift < sites,
    ensures
        lattice_sectors::translation_negative(word as nat, shift, sites) <==> (occupied(
            word as nat,
            (sites - shift) as nat,
            sites,
        ) * occupied(word as nat, 0, (sites - shift) as nat)) % 2 == 1,
{
    let e = (sites - shift) as nat;
    let w = word as nat;
    vstd::arithmetic::div_mod::lemma_small_mod(shift, sites);
    digits::lemma_power_two(e);
    digits::lemma_power_two(shift);
    digits::lemma_power_positive(2, e);
    vstd::arithmetic::power2::lemma_pow2_adds(e, shift);
    let high = w / pow2(e);
    vstd::arithmetic::div_mod::lemma_multiply_divide_lt(
        w as int,
        pow2(e) as int,
        pow2(shift) as int,
    );
    lemma_occupied_ones(high, shift);
    lemma_occupied_ones(w, sites);
    assert forall|site: nat| 0 <= site < shift implies #[trigger] digits::digit(high, 2, site)
        == digits::digit(w, 2, site + e) by {
        lattice::lemma_digit_parts(w, e, 2, site);
    }
    lemma_occupied_alike(high, w, e, 0, shift);
    lemma_occupied_split(w, e, sites);
}

proof fn lemma_ring(basis: &SpinlessFermionBasis1D, k: usize) -> (ring: FermionRing)
    requires
        basis.wf(),
        basis@.momentum == Some(k),
    ensures
        ring.wf(),
        ring.spec_sites() == basis@.sites,
        ring.spec_momentum() == k,
        orbits::sector_of(&ring, basis@.parents, basis@.orbits),
        forall|i: int|
            0 <= i < basis@.parents.len() ==> ring.domain(#[trigger] basis@.parents[i]),
{
    let model = basis@;
    let ring = lattice_sectors::lemma_fermion_ring_exists(model.sites, k);
    assert(ring.spec_sites() == model.sites);
    assert forall|i: int| 0 <= i < model.parents.len() implies ring.domain(
        #[trigger] model.parents[i],
    ) by {
        assert(model.parents.contains(model.parents[i]));
        assert(weights::in_weight_union(
            model.parents[i],
            model.sites as nat,
            model.particles,
            model.sectors,
        ));
    }
    ring
}

/// The translations are the elements of the ring.
proof fn lemma_translates(
    basis: &SpinlessFermionBasis1D,
    ring: &FermionRing,
    from: u128,
    to: u128,
    shift: nat,
)
    requires
        ring.wf(),
        ring.spec_sites() == basis@.sites,
        ring.domain(from),
        shift < basis@.sites,
    ensures
        translates(basis@, from, to, shift) <==> ring.image(from, shift) == to,
{
    let n = basis@.sites as nat;
    digits::lemma_power_two(n);
    lattice::lemma_rotated_bound(from as nat, shift, n, 2);
    ring.image_in_domain(from, shift);
    let image = lattice::rotated(from as nat, shift, n, 2);
    crate::bloch::lemma_rotation_carries(from, to, shift, n, 2);
    bits::lemma_pow2_128();
    if n < 128 {
        vstd::arithmetic::power2::lemma_pow2_strictly_increases(n, 128);
    }
    lattice_sectors::lemma_fermion_ring_facts(ring);
}

proof fn lemma_related(basis: &SpinlessFermionBasis1D, ring: &FermionRing, from: u128, to: u128)
    requires
        ring.wf(),
        ring.spec_sites() == basis@.sites,
        ring.domain(from),
    ensures
        related(basis@, from, to) <==> orbits::in_orbit(ring, from, to),
{
    if related(basis@, from, to) {
        let shift = choose|shift: nat| #[trigger] translates(basis@, from, to, shift);
        lemma_translates(basis, ring, from, to, shift);
        assert(ring.image(from, shift) == to);
    }
    if orbits::in_orbit(ring, from, to) {
        let e = choose|e: nat| e < ring.order() && #[trigger] ring.image(from, e) == to;
        lemma_translates(basis, ring, from, to, e);
        assert(translates(basis@, from, to, e));
    }
}

proof fn lemma_orbit_words(basis: &SpinlessFermionBasis1D, ring: &FermionRing, word: u128)
    requires
        ring.wf(),
        ring.spec_sites() == basis@.sites,
        ring.domain(word),
    ensures
        orbits::orbit_set(ring, word) == related_words(basis@, word),
{
    assert forall|other: u128| orbits::orbit_set(ring, word).contains(other) <==> related_words(
        basis@,
        word,
    ).contains(other) by {
        lemma_related(basis, ring, word, other);
    }
    assert(orbits::orbit_set(ring, word) =~= related_words(basis@, word));
}

proof fn lemma_table(basis: &SpinlessFermionBasis1D, source: u128, target: u128, k: usize)
    requires
        basis.wf(),
        basis@.momentum == Some(k),
        basis@.orbits.states@.contains(source),
    ensures
        basis@.orbits.lookup@.contains_key(target) <==> belongs(basis@, target),
        basis@.orbits.lookup@.contains_key(target) ==> {
            let image = basis@.orbits.lookup@[target];
            &&& basis@.orbits.states@.contains(image.representative)
            &&& image.orbit_size > 0
            &&& bloch_factor(
                basis@,
                source,
                image.representative,
                target,
                spin::reduction_of(image, basis@.orbit_size_of(source), basis@.circle()),
            )
        },
{
    let model = basis@;
    let ring = lemma_ring(basis, k);
    let states = model.orbits.states@;
    let lookup = model.orbits.lookup@;
    let parents = model.parents;
    lattice_sectors::lemma_fermion_ring_facts(&ring);
    assert forall|row: u128| #[trigger] states.contains(row) implies ring.domain(row)
        && orbits::is_least(&ring, row) && orbits::phases_agree(&ring, row) by {
        assert(orbits::reached(&ring, parents, row));
        let i = choose|i: int|
            0 <= i < parents.len() && orbits::in_orbit(&ring, #[trigger] parents[i], row);
        orbits::lemma_orbit_equivalence(&ring, parents[i], row);
    }
    if belongs(model, target) {
        let row = choose|row: u128| #[trigger] states.contains(row) && related(model, row, target);
        lemma_related(basis, &ring, row, target);
        assert(orbits::reached(&ring, parents, row));
        let i = choose|i: int|
            0 <= i < parents.len() && orbits::in_orbit(&ring, #[trigger] parents[i], row);
        orbits::lemma_orbit_equivalence(&ring, parents[i], row);
        orbits::lemma_orbit_equivalence(&ring, row, target);
        assert(orbits::in_orbit(&ring, parents[i], target));
        assert(orbits::reached(&ring, parents, target));
        assert(orbits::in_orbit(&ring, target, row));
        assert(lookup.contains_key(target));
    }
    if lookup.contains_key(target) {
        let image = lookup[target];
        let row = image.representative;
        assert(orbits::describes(&ring, target, image));
        assert(orbits::reached(&ring, parents, target));
        let i = choose|i: int|
            0 <= i < parents.len() && orbits::in_orbit(&ring, #[trigger] parents[i], target);
        orbits::lemma_orbit_equivalence(&ring, parents[i], target);
        assert(orbits::in_orbit(&ring, parents[i], row));
        assert(orbits::reached(&ring, parents, row));
        assert(states.contains(row));
        orbits::lemma_orbit_equivalence(&ring, target, row);
        assert(orbits::in_orbit(&ring, row, target));
        lemma_related(basis, &ring, row, target);
        assert(belongs(model, target));
        lemma_orbit_words(basis, &ring, row);
        lemma_orbit_words(basis, &ring, source);
        let j = states.index_of(source);
        assert(states[j] == source);
        assert(model.orbits.orbit_sizes@[j] == orbits::orbit_set(&ring, states[j]).len());
        orbits::lemma_orbit_equivalence(&ring, row, target);
        orbits::lemma_orbit_not_empty(&ring, row);
        assert forall|other: u128|
            #![trigger related(model, other, target)]
            states.contains(other) && related(model, other, target) implies other == row by {
            lemma_related(basis, &ring, other, target);
            orbits::lemma_orbit_equivalence(&ring, other, target);
            assert(orbits::in_orbit(&ring, other, row));
            orbits::lemma_orbit_equivalence(&ring, other, row);
            assert(orbits::in_orbit(&ring, row, other));
        }
        assert forall|shift: nat| #[trigger]
            translates(model, row, target, shift) implies image.steps == character(
            model,
            row,
            shift,
        ) by {
            lemma_translates(basis, &ring, row, target, shift);
            assert(ring.image(row, shift) == target);
            assert(ring.steps(row, shift) == image.steps);
            lemma_sign(row, shift, model.sites as nat);
            assert(2 * (k * shift) == 2 * k * shift) by (nonlinear_arith);
        }
    }
}

/// Matrix elements of fermions in a momentum sector are those between the normalized symmetric
/// vectors: an action that leads to a word of the sector gives one transition, onto the
/// representative of the word, with the local factors and one reduction factor. That factor holds
/// the sizes of the orbits of the source and of the representative and the phase of the word,
/// signs of the translated fermions included. The same phase and size are the coefficient of the
/// word in the symmetric vector.
pub proof fn law_fermion_transitions_have_bloch_phases(
    basis: &SpinlessFermionBasis1D,
    state: u128,
    operator: Seq<char>,
    sites: Seq<usize>,
    k: usize,
)
    requires
        basis.wf(),
        basis@.momentum == Some(k),
        basis.spec_states().contains(state),
        fermion::fermion_symbol_action(
            basis@.sites,
            state,
            symbols::without_separators(operator),
            sites,
        ) is Ok,
    ensures
        ({
            let word = fermion::fermion_symbol_action(
                basis@.sites,
                state,
                symbols::without_separators(operator),
                sites,
            )->Ok_0;
            let list = basis.spec_transitions(state, operator, sites)->Ok_0;
            &&& basis.spec_transitions(state, operator, sites) is Ok
            &&& list.len() == (if word is Some && belongs(basis@, (word->Some_0).0) {
                1nat
            } else {
                0nat
            })
            &&& list.len() == 1 ==> {
                let (target, factors) = word->Some_0;
                &&& basis.spec_states().contains(list[0].0)
                &&& list[0].1.len() == factors.len() + 1
                &&& forall|f: int|
                    0 <= f < factors.len() ==> list[0].1[f] == Factor::<Turn>::Local(
                        #[trigger] factors[f],
                    )
                &&& list[0].1.last() matches Factor::Reduced(reduced) && bloch_factor(
                    basis@,
                    state,
                    list[0].0,
                    target,
                    reduced,
                ) && basis.spec_reduction(target) == Ok::<
                    Option<(u128, Turn, usize)>,
                    QmbedError,
                >(Some((list[0].0, reduced.phase, reduced.target_orbit)))
            }
        }),
{
    let word = fermion::fermion_symbol_action(
        basis@.sites,
        state,
        symbols::without_separators(operator),
        sites,
    )->Ok_0;
    if let Some(found) = word {
        lemma_table(basis, state, found.0, k);
    }
}

} // verus!

//! Momentum and parity sectors of a ring of sites.

use std::collections::HashMap;

use vstd::arithmetic::div_mod::*;
use vstd::arithmetic::mul::*;
use vstd::arithmetic::power2::*;
use vstd::prelude::*;

use crate::bits;
use crate::digits;
use crate::error::{QmbedError, Reason, Result};
use crate::lattice;
use crate::lattice::{reflect_lattice_state, rotate_lattice_state};
use crate::orbits;
use crate::orbits::{reduce_orbits, OrbitAction, OrbitSector, SymmetryImage};
use crate::ordered;
use crate::ordered::Ranked;
use crate::weights;

verus! {

/// Translations and reflections of a ring, with the phases of one sector.
///
/// Phases count steps of one half of the smallest momentum, `2 * sites` of them
/// to the full circle.
pub struct SpinLattice {
    sites: usize,
    base: u128,
    momentum: Option<usize>,
    parity: Option<i8>,
}

impl SpinLattice {
    pub closed spec fn spec_sites(&self) -> nat {
        self.sites as nat
    }

    pub closed spec fn spec_base(&self) -> nat {
        self.base as nat
    }

    pub closed spec fn spec_momentum(&self) -> Option<usize> {
        self.momentum
    }

    pub closed spec fn spec_parity(&self) -> Option<i8> {
        self.parity
    }

    /// The ring has sites, its words can be packed and its sector exists.
    #[verifier::type_invariant]
    pub closed spec fn wf(&self) -> bool {
        &&& self.sites > 0
        &&& self.base >= 2
        &&& digits::power(self.base as nat, self.sites as nat) <= u128::MAX + 1
        &&& self.sites <= 128
        &&& self.momentum matches Some(k) ==> k < self.sites
    }

    /// Number of translations that are identified.
    pub open spec fn translations(&self) -> nat {
        if self.spec_momentum() is Some {
            self.spec_sites()
        } else {
            1
        }
    }

    /// Two where reflections are identified, else one.
    pub open spec fn mirrors(&self) -> nat {
        if self.spec_parity() is Some {
            2
        } else {
            1
        }
    }

    /// Translation of an element.
    pub open spec fn shift_of(&self, element: nat) -> nat {
        element / self.mirrors()
    }

    /// Whether an element reflects after translating.
    pub open spec fn mirrored(&self, element: nat) -> bool {
        element % self.mirrors() == 1
    }

    /// Phase steps of a translation by `shift`, reflected or not.
    pub open spec fn phase_steps(&self, shift: nat, mirror: bool) -> nat {
        let k = match self.spec_momentum() {
            Some(k) => k as nat,
            None => 0,
        };
        let odd = mirror && self.spec_parity() == Some(-1i8);
        (2 * (k * shift) + if odd {
            self.spec_sites()
        } else {
            0
        }) % (2 * self.spec_sites())
    }

    /// Image of a word under a translation and, after it, a reflection.
    pub open spec fn moved(&self, code: nat, shift: nat, mirror: bool) -> nat {
        let turned = lattice::rotated(code, shift, self.spec_sites(), self.spec_base());
        if mirror {
            lattice::reflected(turned, self.spec_sites(), self.spec_base())
        } else {
            turned
        }
    }

    /// Number of the element with this translation and reflection.
    pub open spec fn element_of(&self, shift: nat, mirror: bool) -> nat {
        shift * self.mirrors() + if mirror {
            1nat
        } else {
            0nat
        }
    }

    pub proof fn lemma_element(&self, shift: nat, mirror: bool)
        requires
            shift < self.translations(),
            mirror ==> self.mirrors() == 2,
        ensures
            self.element_of(shift, mirror) < self.order(),
            self.shift_of(self.element_of(shift, mirror)) == shift,
            self.mirrored(self.element_of(shift, mirror)) == mirror,
    {
        let m = self.mirrors();
        let r: nat = if mirror {
            1
        } else {
            0
        };
        lemma_fundamental_div_mod_converse(
            (shift * m + r) as int,
            m as int,
            shift as int,
            r as int,
        );
        assert(shift * m + r < self.translations() * m) by (nonlinear_arith)
            requires
                shift < self.translations(),
                r < m,
        ;
    }

    pub proof fn lemma_parts(&self, element: nat)
        requires
            self.wf(),
            element < self.order(),
        ensures
            self.shift_of(element) < self.translations(),
            self.shift_of(element) < self.spec_sites(),
            self.mirrored(element) ==> self.mirrors() == 2,
    {
        let m = self.mirrors();
        lemma_mul_is_commutative(self.translations() as int, m as int);
        lemma_multiply_divide_lt(element as int, m as int, self.translations() as int);
        if m == 1 {
            assert(element % 1 == 0);
        }
    }

    pub proof fn lemma_moved_bound(&self, code: nat, shift: nat, mirror: bool)
        requires
            self.wf(),
            code < digits::power(self.spec_base(), self.spec_sites()),
        ensures
            self.moved(code, shift, mirror) < digits::power(self.spec_base(), self.spec_sites()),
            self.moved(code, shift, mirror) <= u128::MAX,
    {
        let turned = lattice::rotated(code, shift, self.spec_sites(), self.spec_base());
        lattice::lemma_rotated_bound(code, shift, self.spec_sites(), self.spec_base());
        lattice::lemma_reflected_bound(turned, self.spec_sites(), self.spec_base());
    }

    /// Two moves in a row are one move.
    proof fn lemma_moves_compose(
        &self,
        code: nat,
        first: nat,
        first_mirror: bool,
        second: nat,
        second_mirror: bool,
    )
        requires
            self.wf(),
            code < digits::power(self.spec_base(), self.spec_sites()),
            first < self.spec_sites(),
            second < self.spec_sites(),
        ensures
            self.moved(self.moved(code, first, first_mirror), second, second_mirror) == self.moved(
                code,
                combined_shift(first, first_mirror, second, self.spec_sites()),
                first_mirror != second_mirror,
            ),
    {
        let n = self.spec_sites();
        let b = self.spec_base();
        let turned = lattice::rotated(code, first, n, b);
        lattice::lemma_rotated_bound(code, first, n, b);
        if !first_mirror {
            lattice::law_rotations_compose(code, first, second, n, b);
            lemma_mod_twice((first + second) as int, n as int);
        } else {
            let back = (n - second) as nat;
            lattice::law_reflection_reverses_rotation(turned, back, n, b);
            lattice::law_rotations_compose(code, first, back, n, b);
            lemma_mod_twice((first + back) as int, n as int);
            let through = lattice::rotated(turned, back, n, b);
            lattice::lemma_rotated_bound(turned, back, n, b);
            lattice::law_reflection_involution(through, n, b);
        }
    }

    /// A ring with the phases of the given sector.
    pub fn new(sites: usize, base: u128, momentum: Option<usize>, parity: Option<i8>) -> (ring: Self)
        requires
            sites > 0,
            base >= 2,
            digits::power(base as nat, sites as nat) <= u128::MAX + 1,
            momentum matches Some(k) ==> k < sites,
        ensures
            ring.wf(),
            ring.spec_sites() == sites,
            ring.spec_base() == base,
            ring.spec_momentum() == momentum,
            ring.spec_parity() == parity,
    {
        proof {
            lemma_packable_sites(base as nat, sites as nat);
        }
        SpinLattice { sites, base, momentum, parity }
    }
}

/// Translation that two moves amount to.
pub open spec fn combined_shift(first: nat, first_mirror: bool, second: nat, sites: nat) -> nat {
    if first_mirror {
        ((first + sites - second) % sites as int) as nat
    } else {
        (first + second) % sites
    }
}

/// Words of at least binary digits have at most as many sites as a packed word.
pub proof fn lemma_packable_sites(base: nat, sites: nat)
    requires
        base >= 2,
        digits::power(base, sites) <= u128::MAX + 1,
    ensures
        sites <= 128,
{
    if sites > 128 {
        bits::lemma_pow2_128();
        digits::lemma_power_two(sites);
        lemma_pow2_strictly_increases(128, sites);
        lemma_power_base_monotone(2, base, sites);
    }
}

/// Larger bases give larger powers.
pub proof fn lemma_power_base_monotone(small: nat, large: nat, exponent: nat)
    requires
        small <= large,
    ensures
        digits::power(small, exponent) <= digits::power(large, exponent),
    decreases exponent,
{
    if exponent > 0 {
        let d = (exponent - 1) as nat;
        lemma_power_base_monotone(small, large, d);
        lemma_mul_upper_bound(
            small as int,
            large as int,
            digits::power(small, d) as int,
            digits::power(large, d) as int,
        );
    }
}

impl OrbitAction for SpinLattice {
    open spec fn domain(&self, state: u128) -> bool {
        self.wf() && state < digits::power(self.spec_base(), self.spec_sites())
    }

    open spec fn order(&self) -> nat {
        self.translations() * self.mirrors()
    }

    open spec fn image(&self, state: u128, element: nat) -> u128 {
        self.moved(state as nat, self.shift_of(element), self.mirrored(element)) as u128
    }

    open spec fn steps(&self, state: u128, element: nat) -> nat {
        self.phase_steps(self.shift_of(element), self.mirrored(element))
    }

    fn count(&self) -> (count: usize) {
        proof {
            use_type_invariant(self);
        }
        let translations: usize = match self.momentum {
            Some(_) => self.sites,
            None => 1,
        };
        let mirrors: usize = match self.parity {
            Some(_) => 2,
            None => 1,
        };
        translations * mirrors
    }

    fn act(&self, state: u128, element: usize) -> (result: (u128, usize)) {
        let mirrors: usize = match self.parity {
            Some(_) => 2,
            None => 1,
        };
        let shift: usize = element / mirrors;
        let mirror: bool = element % mirrors == 1;
        proof {
            self.lemma_parts(element as nat);
            self.lemma_moved_bound(state as nat, shift as nat, mirror);
            lattice::lemma_rotated_bound(
                state as nat,
                shift as nat,
                self.spec_sites(),
                self.spec_base(),
            );
        }
        let turned: u128 = rotate_lattice_state(state, shift, self.sites, self.base);
        let image: u128 = if mirror {
            reflect_lattice_state(turned, self.sites, self.base)
        } else {
            turned
        };
        let momentum: usize = match self.momentum {
            Some(k) => k,
            None => 0,
        };
        let odd: bool = mirror && match self.parity {
            Some(value) => value == -1,
            None => false,
        };
        proof {
            assert(momentum * shift <= 128 * 128) by (nonlinear_arith)
                requires
                    momentum < 128,
                    shift < 128,
            ;
        }
        let offset: usize = if odd {
            self.sites
        } else {
            0
        };
        (image, (2 * (momentum * shift) + offset) % (2 * self.sites))
    }

    proof fn image_in_domain(&self, state: u128, element: nat) {
        self.lemma_moved_bound(state as nat, self.shift_of(element), self.mirrored(element));
    }

    proof fn neutral(&self, state: u128) -> (element: nat) {
        self.lemma_element(0, false);
        lattice::law_full_turn(state as nat, 0, self.spec_sites(), self.spec_base());
        lemma_mul_by_zero_is_zero(self.spec_sites() as int);
        self.element_of(0, false)
    }

    proof fn compose(&self, state: u128, first: nat, second: nat) -> (element: nat) {
        let a = self.shift_of(first);
        let b = self.shift_of(second);
        let p = self.mirrored(first);
        let q = self.mirrored(second);
        self.lemma_parts(first);
        self.lemma_parts(second);
        self.lemma_moved_bound(state as nat, a, p);
        self.lemma_moves_compose(state as nat, a, p, b, q);
        let shift = combined_shift(a, p, b, self.spec_sites());
        if self.spec_momentum() is None {
            let n = self.spec_sites() as int;
            lemma_mod_self_0(n);
            lemma_small_mod(0, self.spec_sites());
        }
        self.lemma_element(shift, p != q);
        self.element_of(shift, p != q)
    }

    proof fn invert(&self, state: u128, element: nat) -> (inverse: nat) {
        let a = self.shift_of(element);
        let p = self.mirrored(element);
        let n = self.spec_sites();
        self.lemma_parts(element);
        self.lemma_moved_bound(state as nat, a, p);
        let b = if p {
            a
        } else {
            ((n - a) % n as int) as nat
        };
        if self.spec_momentum() is None {
            lemma_mod_self_0(n as int);
        }
        self.lemma_moves_compose(state as nat, a, p, b, p);
        assert(combined_shift(a, p, b, n) == 0) by {
            if p {
                lemma_mod_self_0(n as int);
            } else if a == 0 {
                lemma_mod_self_0(n as int);
                lemma_small_mod(0, n);
            } else {
                lemma_small_mod((n - a) as nat, n);
                lemma_mod_self_0(n as int);
            }
        }
        lattice::law_full_turn(state as nat, 0, n, self.spec_base());
        lemma_mul_by_zero_is_zero(n as int);
        self.lemma_element(b, p);
        self.element_of(b, p)
    }
}

/// Number of ones that a translation carries around the end of the ring.
pub open spec fn wrapped_ones(code: nat, shift: nat, sites: nat) -> nat
    recommends
        sites > 0,
{
    bits::ones(code / pow2((sites - shift % sites) as nat))
}

/// Whether a translation of fermions changes the sign: every wrapped particle
/// passes every other one.
pub open spec fn translation_negative(code: nat, shift: nat, sites: nat) -> bool {
    let wrapped = wrapped_ones(code, shift, sites);
    (wrapped * (bits::ones(code) - wrapped)) % 2 == 1
}

/// Translates occupied orbitals of a ring, and tells whether the sign changes.
pub fn translate_fermion_state(state: u128, shift: usize, sites: usize) -> (result: (u128, bool))
    requires
        0 < sites <= 128,
        state < pow2(sites as nat),
    ensures
        result.0 == lattice::rotated(state as nat, shift as nat, sites as nat, 2),
        result.0 < pow2(sites as nat),
        result.1 == translation_negative(state as nat, shift as nat, sites as nat),
{
    let ghost n = sites as nat;
    proof {
        bits::lemma_pow2_128();
        digits::lemma_power_two(n);
        if n < 128 {
            lemma_pow2_strictly_increases(n, 128);
        }
    }
    let translated: u128 = rotate_lattice_state(state, shift, sites, 2);
    let moved: usize = shift % sites;
    let wrapped: u32 = if moved == 0 {
        proof {
            lemma_basic_div(state as int, pow2(n) as int);
            assert(bits::ones(0) == 0);
        }
        0
    } else {
        let low: usize = sites - moved;
        proof {
            vstd::bits::lemma_u128_shr_is_div(state, low as u128);
            assert(state >> low == state >> (low as u128)) by (bit_vector);
        }
        (state >> low).count_ones()
    };
    let total: u32 = state.count_ones();
    proof {
        let e = (n - moved) as nat;
        lemma_pow2_pos(e);
        lemma_fundamental_div_mod(state as int, pow2(e) as int);
        lemma_mul_is_commutative(pow2(e) as int, state as int / pow2(e) as int);
        lemma_mod_bound(state as int, pow2(e) as int);
        bits::lemma_ones_split(state as nat / pow2(e), state as nat % pow2(e), e);
        bits::lemma_ones_bound(state as nat, n);
        assert(wrapped * (total - wrapped) <= 128 * 128) by (nonlinear_arith)
            requires
                wrapped <= total <= 128,
        ;
        lemma_mul_nonnegative(wrapped as int, total - wrapped);
    }
    (translated, (wrapped * (total - wrapped)) % 2 == 1)
}

/// Translations of fermions on a ring, with the phases of one momentum.
pub struct FermionRing {
    sites: usize,
    momentum: usize,
}

impl FermionRing {
    pub closed spec fn spec_sites(&self) -> nat {
        self.sites as nat
    }

    pub closed spec fn spec_momentum(&self) -> nat {
        self.momentum as nat
    }

    #[verifier::type_invariant]
    pub closed spec fn wf(&self) -> bool {
        0 < self.sites <= 128 && self.momentum < self.sites
    }

    /// A ring with the phases of the given momentum.
    pub fn new(sites: usize, momentum: usize) -> (ring: Self)
        requires
            0 < sites <= 128,
            momentum < sites,
        ensures
            ring.wf(),
            ring.spec_sites() == sites,
            ring.spec_momentum() == momentum,
    {
        FermionRing { sites, momentum }
    }
}

impl OrbitAction for FermionRing {
    open spec fn domain(&self, state: u128) -> bool {
        self.wf() && state < pow2(self.spec_sites())
    }

    open spec fn order(&self) -> nat {
        self.spec_sites()
    }

    open spec fn image(&self, state: u128, element: nat) -> u128 {
        lattice::rotated(state as nat, element, self.spec_sites(), 2) as u128
    }

    open spec fn steps(&self, state: u128, element: nat) -> nat {
        (2 * (self.spec_momentum() * element) + if translation_negative(
            state as nat,
            element,
            self.spec_sites(),
        ) {
            self.spec_sites()
        } else {
            0
        }) % (2 * self.spec_sites())
    }

    fn count(&self) -> (count: usize) {
        proof {
            use_type_invariant(self);
        }
        self.sites
    }

    fn act(&self, state: u128, element: usize) -> (result: (u128, usize)) {
        let (translated, negative) = translate_fermion_state(state, element, self.sites);
        proof {
            assert(self.momentum * element <= 128 * 128) by (nonlinear_arith)
                requires
                    self.momentum < 128,
                    element < 128,
            ;
        }
        let offset: usize = if negative {
            self.sites
        } else {
            0
        };
        (translated, (2 * (self.momentum * element) + offset) % (2 * self.sites))
    }

    proof fn image_in_domain(&self, state: u128, element: nat) {
        self.lemma_moved(state, element);
    }

    proof fn neutral(&self, state: u128) -> (element: nat) {
        let n = self.spec_sites();
        digits::lemma_power_two(n);
        lattice::law_full_turn(state as nat, 0, n, 2);
        lemma_mul_by_zero_is_zero(n as int);
        0
    }

    proof fn compose(&self, state: u128, first: nat, second: nat) -> (element: nat) {
        let n = self.spec_sites();
        digits::lemma_power_two(n);
        self.lemma_moved(state, first);
        lattice::law_rotations_compose(state as nat, first, second, n, 2);
        lemma_mod_twice((first + second) as int, n as int);
        (first + second) % n
    }

    proof fn invert(&self, state: u128, element: nat) -> (inverse: nat) {
        let n = self.spec_sites();
        digits::lemma_power_two(n);
        self.lemma_moved(state, element);
        let back = if element == 0 {
            0
        } else {
            (n - element) as nat
        };
        lattice::law_rotations_compose(state as nat, element, back, n, 2);
        let turns: nat = if element == 0 {
            0
        } else {
            1
        };
        lattice::law_full_turn(state as nat, turns, n, 2);
        lemma_mul_basics(n as int);
        back
    }
}

impl FermionRing {
    proof fn lemma_moved(&self, state: u128, element: nat)
        requires
            self.domain(state),
        ensures
            lattice::rotated(state as nat, element, self.spec_sites(), 2) < pow2(
                self.spec_sites(),
            ),
            pow2(self.spec_sites()) <= u128::MAX + 1,
    {
        let n = self.spec_sites();
        digits::lemma_power_two(n);
        bits::lemma_pow2_128();
        if n < 128 {
            lemma_pow2_strictly_increases(n, 128);
        }
        lattice::lemma_rotated_bound(state as nat, element, n, 2);
    }
}

/// Momentum as a number below the number of sites.
pub open spec fn normalized_momentum(momentum: i32, sites: usize) -> usize
    recommends
        sites > 0,
{
    (momentum as int % sites as int) as usize
}

/// Reduces a momentum modulo the number of sites.
pub fn normalize_momentum(momentum: i32, sites: usize) -> (result: usize)
    requires
        sites > 0,
    ensures
        result == normalized_momentum(momentum, sites),
        result < sites,
        result == momentum as int % sites as int,
{
    proof {
        lemma_mod_bound(momentum as int, sites as int);
    }
    if momentum >= 0 {
        momentum as usize % sites
    } else {
        let magnitude: usize = (-(momentum as i64)) as usize;
        let rest: usize = magnitude % sites;
        proof {
            let m = sites as int;
            let q = magnitude as int / m;
            lemma_fundamental_div_mod(magnitude as int, m);
            lemma_mod_bound(magnitude as int, m);
            if rest == 0 {
                assert(momentum as int == (-q) * m) by (nonlinear_arith)
                    requires
                        momentum as int == -(m * q),
                ;
                lemma_fundamental_div_mod_converse(momentum as int, m, -q, 0);
            } else {
                assert(momentum as int == (-q - 1) * m + (m - rest)) by (nonlinear_arith)
                    requires
                        momentum as int == -(m * q + rest),
                ;
                lemma_fundamental_div_mod_converse(momentum as int, m, -q - 1, m - rest);
            }
        }
        if rest == 0 {
            0
        } else {
            sites - rest
        }
    }
}

/// Representatives of one sector of a ring, with the labels of the sector.
pub struct SymmetrySector {
    /// The kept orbits.
    pub orbits: OrbitSector,
    /// Momentum label below the number of sites.
    pub momentum: Option<usize>,
    /// Parity label.
    pub parity: Option<i8>,
}

/// A sector in which every listed state stands for itself.
pub open spec fn unreduced_sector(parents: Seq<u128>, sector: SymmetrySector) -> bool {
    &&& sector.momentum is None
    &&& sector.parity is None
    &&& sector.orbits.states@ == parents
    &&& sector.orbits.orbit_sizes@.len() == parents.len()
    &&& forall|i: int| 0 <= i < parents.len() ==> #[trigger] sector.orbits.orbit_sizes@[i] == 1
    &&& forall|state: u128| #[trigger]
        sector.orbits.lookup@.contains_key(state) <==> parents.contains(state)
    &&& forall|state: u128|
        parents.contains(state) ==> #[trigger] sector.orbits.lookup@[state] == (SymmetryImage {
            representative: state,
            steps: 0,
            orbit_size: 1,
        })
}

/// The sector in which every listed state stands for itself.
fn trivial_sector(parents: &Vec<u128>) -> (sector: SymmetrySector)
    ensures
        unreduced_sector(parents@, sector),
{
    broadcast use vstd::std_specs::hash::group_hash_axioms;

    let mut orbit_sizes: Vec<usize> = Vec::new();
    let mut lookup: HashMap<u128, SymmetryImage> = HashMap::new();
    let mut next: usize = 0;
    while next < parents.len()
        invariant
            next <= parents@.len(),
            orbit_sizes@.len() == next,
            forall|i: int| 0 <= i < next ==> #[trigger] orbit_sizes@[i] == 1,
            forall|state: u128| #[trigger]
                lookup@.contains_key(state) <==> parents@.take(next as int).contains(state),
            forall|state: u128|
                lookup@.contains_key(state) ==> #[trigger] lookup@[state] == (SymmetryImage {
                    representative: state,
                    steps: 0,
                    orbit_size: 1,
                }),
        decreases parents@.len() - next,
    {
        let state: u128 = parents[next];
        let ghost seen = parents@.take(next as int);
        let ghost before = lookup@;
        orbit_sizes.push(1);
        lookup.insert(state, SymmetryImage { representative: state, steps: 0, orbit_size: 1 });
        proof {
            assert(parents@.take(next + 1) =~= seen.push(state));
            assert forall|other: u128| #[trigger] lookup@.contains_key(other) <==> parents@.take(
                next + 1,
            ).contains(other) by {
                vstd::seq_lib::lemma_seq_contains_after_push(seen, state, other);
                assert(before.contains_key(other) <==> seen.contains(other));
            }
        }
        next += 1;
    }
    assert(parents@.take(next as int) =~= parents@);
    let states: Vec<u128> = ordered::copy_list(parents);
    SymmetrySector {
        orbits: OrbitSector { states, orbit_sizes, lookup },
        momentum: None,
        parity: None,
    }
}

/// Momentum label of a sector.
pub open spec fn momentum_label(momentum: Option<i32>, sites: usize) -> Option<usize> {
    match momentum {
        Some(value) => Some(normalized_momentum(value, sites)),
        None => None,
    }
}

/// The refusal of a momentum and parity, before any state is looked at.
pub open spec fn spin_labels_error(
    sites: usize,
    momentum: Option<i32>,
    parity: Option<i8>,
) -> Option<QmbedError> {
    if sites == 0 {
        Some(QmbedError::InvalidSector(Reason::Text("symmetry sectors require at least one site")))
    } else if parity is Some && parity->0 != -1 && parity->0 != 1 {
        Some(QmbedError::InvalidSector(Reason::Text("parity must be either -1 or +1")))
    } else if parity is Some && momentum is Some && normalized_momentum(momentum->0, sites) != 0
        && 2 * normalized_momentum(momentum->0, sites) != sites {
        Some(
            QmbedError::IncompatibleSymmetry(
                "parity can share a one-dimensional sector with momentum only at k=0 or k=pi",
            ),
        )
    } else {
        None
    }
}

/// Whether a ring carries these labels.
pub open spec fn ring_of(
    ring: SpinLattice,
    sites: usize,
    base: u128,
    momentum: Option<usize>,
    parity: Option<i8>,
) -> bool {
    &&& ring.wf()
    &&& ring.spec_sites() == sites
    &&& ring.spec_base() == base
    &&& ring.spec_momentum() == momentum
    &&& ring.spec_parity() == parity
}

/// For every sector that exists there is a ring.
pub proof fn lemma_ring_exists(
    sites: usize,
    base: u128,
    momentum: Option<usize>,
    parity: Option<i8>,
) -> (ring: SpinLattice)
    requires
        sites > 0,
        base >= 2,
        digits::power(base as nat, sites as nat) <= u128::MAX + 1,
        momentum matches Some(k) ==> k < sites,
    ensures
        ring_of(ring, sites, base, momentum, parity),
{
    lemma_packable_sites(base as nat, sites as nat);
    SpinLattice { sites, base, momentum, parity }
}

/// For every momentum there is a ring of fermions.
pub proof fn lemma_fermion_ring_exists(sites: usize, momentum: usize) -> (ring: FermionRing)
    requires
        sites <= 128,
        momentum < sites,
    ensures
        ring.wf(),
        ring.spec_sites() == sites,
        ring.spec_momentum() == momentum,
{
    FermionRing { sites, momentum }
}

/// The invariant of a ring, spelled out.
pub proof fn lemma_ring_facts(ring: &SpinLattice)
    requires
        ring.wf(),
    ensures
        0 < ring.spec_sites() <= 128,
        ring.spec_base() >= 2,
        digits::power(ring.spec_base(), ring.spec_sites()) <= u128::MAX + 1,
{
}

/// The invariant of a ring of fermions, spelled out.
pub proof fn lemma_fermion_ring_facts(ring: &FermionRing)
    requires
        ring.wf(),
    ensures
        0 < ring.spec_sites() <= 128,
        ring.spec_momentum() < ring.spec_sites(),
{
}

/// The momentum and parity sector of a list of states of a ring.
///
/// Without labels every state stands for itself.
pub fn spin_symmetry_sector(
    parent_states: &Vec<u128>,
    sites: usize,
    base: u128,
    momentum: Option<i32>,
    parity: Option<i8>,
) -> (result: Result<SymmetrySector>)
    requires
        base >= 2,
        digits::power(base as nat, sites as nat) <= u128::MAX + 1,
        forall|i: int|
            0 <= i < parent_states@.len() ==> #[trigger] parent_states@[i] < digits::power(
                base as nat,
                sites as nat,
            ),
    ensures
        match result {
            Ok(sector) => {
                &&& spin_labels_error(sites, momentum, parity) is None
                &&& sector.momentum == momentum_label(momentum, sites)
                &&& sector.parity == parity
                &&& momentum is None && parity is None ==> unreduced_sector(parent_states@, sector)
                &&& momentum is Some || parity is Some ==> forall|ring: SpinLattice| #[trigger]
                    ring_of(ring, sites, base, sector.momentum, parity) ==> orbits::sector_of(
                        &ring,
                        parent_states@,
                        sector.orbits,
                    ) && orbits::closed_under(&ring, parent_states@)
            },
            Err(error) => {
                ||| spin_labels_error(sites, momentum, parity) == Some(error)
                ||| {
                    &&& spin_labels_error(sites, momentum, parity) is None
                    &&& momentum is Some || parity is Some
                    &&& error == QmbedError::IncompatibleSymmetry(
                        "symmetry map leaves the selected magnetization sector",
                    )
                    &&& forall|ring: SpinLattice| #[trigger]
                        ring_of(
                            ring,
                            sites,
                            base,
                            momentum_label(momentum, sites),
                            parity,
                        ) ==> !orbits::closed_under(&ring, parent_states@)
                }
            },
        },
{
    if sites == 0 {
        return Err(QmbedError::InvalidSector(Reason::Text("symmetry sectors require at least one site")));
    }
    if let Some(value) = parity {
        if value != -1 && value != 1 {
            return Err(QmbedError::InvalidSector(Reason::Text("parity must be either -1 or +1")));
        }
    }
    let label: Option<usize> = match momentum {
        Some(value) => Some(normalize_momentum(value, sites)),
        None => None,
    };
    proof {
        lemma_packable_sites(base as nat, sites as nat);
    }
    if let Some(k) = label {
        if parity.is_some() && k != 0 && 2 * k != sites {
            return Err(
                QmbedError::IncompatibleSymmetry(
                    "parity can share a one-dimensional sector with momentum only at k=0 or k=pi",
                ),
            );
        }
    }
    if momentum.is_none() && parity.is_none() {
        return Ok(trivial_sector(parent_states));
    }
    let ring = SpinLattice::new(sites, base, label, parity);
    proof {
        assert forall|other: SpinLattice| #[trigger] ring_of(
            other,
            sites,
            base,
            label,
            parity,
        ) implies other == ring by {
        }
    }
    match reduce_orbits(&ring, parent_states, true) {
        Ok(orbits) => Ok(SymmetrySector { orbits, momentum: label, parity }),
        Err(error) => Err(error),
    }
}

/// The momentum sector of a list of fermion states of a ring.
///
/// Without a momentum every state stands for itself. A momentum for which no orbit
/// is left is refused.
pub fn fermion_translation_sector(
    parent_states: &Vec<u128>,
    sites: usize,
    momentum: Option<i32>,
) -> (result: Result<SymmetrySector>)
    requires
        sites <= 128,
        forall|i: int|
            0 <= i < parent_states@.len() ==> #[trigger] parent_states@[i] < pow2(sites as nat),
    ensures
        match result {
            Ok(sector) => {
                &&& sector.parity is None
                &&& momentum is None ==> unreduced_sector(parent_states@, sector)
                &&& momentum matches Some(value) ==> {
                    &&& sites > 0
                    &&& sector.momentum == Some(normalized_momentum(value, sites))
                    &&& sector.orbits.states@.len() > 0
                    &&& forall|ring: FermionRing|
                        ring.wf() && #[trigger] ring.spec_sites() == sites && ring.spec_momentum()
                            == normalized_momentum(value, sites) ==> orbits::sector_of(
                            &ring,
                            parent_states@,
                            sector.orbits,
                        )
                }
            },
            Err(error) => {
                &&& momentum is Some
                &&& sites == 0 ==> error == QmbedError::InvalidSector(
                    Reason::Text("translation sectors require at least one site"),
                )
                &&& sites > 0 ==> {
                    &&& error == QmbedError::InvalidSector(
                        Reason::Text("the requested fermion momentum sector is empty"),
                    )
                    &&& forall|ring: FermionRing, state: u128|
                        ring.wf() && #[trigger] ring.spec_sites() == sites && ring.spec_momentum()
                            == normalized_momentum(momentum->0, sites) ==> !(#[trigger] orbits::reached(
                            &ring,
                            parent_states@,
                            state,
                        ) && orbits::is_least(&ring, state) && orbits::phases_agree(&ring, state))
                }
            },
        },
{
    let value: i32 = match momentum {
        Some(value) => value,
        None => {
            return Ok(trivial_sector(parent_states));
        },
    };
    if sites == 0 {
        return Err(QmbedError::InvalidSector(Reason::Text("translation sectors require at least one site")));
    }
    let label: usize = normalize_momentum(value, sites);
    let ring = FermionRing::new(sites, label);
    proof {
        assert forall|other: FermionRing|
            other.wf() && #[trigger] other.spec_sites() == sites && other.spec_momentum()
                == normalized_momentum(value, sites) implies other == ring by {
        }
    }
    match reduce_orbits(&ring, parent_states, false) {
        Ok(orbits) => {
            if orbits.states.len() == 0 {
                proof {
                    assert forall|state: u128| !(#[trigger] orbits::reached(
                        &ring,
                        parent_states@,
                        state,
                    ) && orbits::is_least(&ring, state) && orbits::phases_agree(
                        &ring,
                        state,
                    )) by {
                        assert(!orbits.states@.contains(state));
                    }
                }
                return Err(
                    QmbedError::InvalidSector(Reason::Text("the requested fermion momentum sector is empty")),
                );
            }
            Ok(SymmetrySector { orbits, momentum: Some(label), parity: None })
        },
        Err(error) => Err(error),
    }
}

/// The orbits of two representatives of a sector have no state in common.
proof fn lemma_sector_orbits_apart(
    ring: &SpinLattice,
    parents: Seq<u128>,
    sector: OrbitSector,
    i: int,
    j: int,
    state: u128,
)
    requires
        ring.wf(),
        forall|k: int| 0 <= k < parents.len() ==> ring.domain(#[trigger] parents[k]),
        orbits::sector_of(ring, parents, sector),
        0 <= i < sector.states@.len(),
        0 <= j < sector.states@.len(),
        orbits::in_orbit(ring, sector.states@[i], state),
        orbits::in_orbit(ring, sector.states@[j], state),
    ensures
        i == j,
{
    let left = sector.states@[i];
    let right = sector.states@[j];
    assert(sector.states@.contains(left) && sector.states@.contains(right));
    lemma_reached_domain(ring, parents, left);
    lemma_reached_domain(ring, parents, right);
    orbits::lemma_orbit_equivalence(ring, left, state);
    orbits::lemma_orbit_equivalence(ring, right, state);
    assert(orbits::in_orbit(ring, left, right));
    assert(orbits::in_orbit(ring, right, left));
}

/// What listed states lead to belongs to the ring.
proof fn lemma_reached_domain(ring: &SpinLattice, parents: Seq<u128>, state: u128)
    requires
        ring.wf(),
        forall|k: int| 0 <= k < parents.len() ==> ring.domain(#[trigger] parents[k]),
        orbits::reached(ring, parents, state),
    ensures
        ring.domain(state),
{
    let k = choose|k: int|
        0 <= k < parents.len() && orbits::in_orbit(ring, #[trigger] parents[k], state);
    orbits::lemma_orbit_equivalence(ring, parents[k], state);
}

/// A sector of a ring is made of whole orbits: its states ascend, each is the least of its orbit,
/// the orbits lie among the listed states and do not overlap, and the sizes are theirs. The keys
/// of the lookup are exactly the states of these orbits; each key names the representative and the
/// size of its orbit, and a representative has no phase.
pub proof fn law_sector_is_made_of_orbits(
    ring: &SpinLattice,
    parents: Seq<u128>,
    sector: OrbitSector,
)
    requires
        ring.wf(),
        forall|k: int| 0 <= k < parents.len() ==> ring.domain(#[trigger] parents[k]),
        orbits::sector_of(ring, parents, sector),
        orbits::closed_under(ring, parents),
    ensures
        weights::ascending(sector.states@),
        sector.orbit_sizes@.len() == sector.states@.len(),
        forall|i: int|
            0 <= i < sector.states@.len() ==> orbits::is_least(ring, #[trigger] sector.states@[i])
                && orbits::orbit_set(ring, sector.states@[i]).subset_of(parents.to_set())
                && sector.orbit_sizes@[i] == orbits::orbit_set(ring, sector.states@[i]).len(),
        forall|i: int, j: int|
            0 <= i < j < sector.states@.len() ==> orbits::orbit_set(
                ring,
                #[trigger] sector.states@[i],
            ).disjoint(orbits::orbit_set(ring, #[trigger] sector.states@[j])),
        forall|state: u128| #[trigger]
            sector.lookup@.contains_key(state) <==> orbits::reached(
                ring,
                sector.states@,
                state,
            ),
        forall|i: int, state: u128|
            0 <= i < sector.states@.len() && #[trigger] orbits::in_orbit(
                ring,
                #[trigger] sector.states@[i],
                state,
            ) ==> sector.lookup@[state].representative == sector.states@[i]
                && sector.lookup@[state].orbit_size == sector.orbit_sizes@[i],
        forall|i: int|
            0 <= i < sector.states@.len() ==> sector.lookup@[#[trigger] sector.states@[i]].steps
                == 0,
{
    let states = sector.states@;
    let lookup = sector.lookup@;
    assert forall|i: int| 0 <= i < states.len() implies orbits::is_least(ring, #[trigger] states[i])
        && orbits::orbit_set(ring, states[i]).subset_of(parents.to_set()) && ring.domain(states[i])
        && orbits::phases_agree(ring, states[i]) && orbits::reached(ring, parents, states[i]) by {
        assert(states.contains(states[i]));
        lemma_reached_domain(ring, parents, states[i]);
        let k = choose|k: int|
            0 <= k < parents.len() && orbits::in_orbit(ring, #[trigger] parents[k], states[i]);
        orbits::lemma_orbit_equivalence(ring, parents[k], states[i]);
        assert forall|other: u128| orbits::orbit_set(
            ring,
            states[i],
        ).contains(other) implies parents.to_set().contains(other) by {
            assert(orbits::in_orbit(ring, states[i], other));
            assert(orbits::in_orbit(ring, parents[k], other));
            assert(orbits::reached(ring, parents, other));
        }
    }
    assert forall|i: int| 0 <= i < states.len() implies sector.orbit_sizes@[i]
        == orbits::orbit_set(ring, #[trigger] states[i]).len() by {
        assert(sector.orbit_sizes@[i] == orbits::orbit_set(ring, states[i]).len());
    }
    assert forall|i: int, j: int| 0 <= i < j < states.len() implies orbits::orbit_set(
        ring,
        #[trigger] states[i],
    ).disjoint(orbits::orbit_set(ring, #[trigger] states[j])) by {
        assert forall|state: u128| orbits::orbit_set(
            ring,
            states[i],
        ).contains(state) implies !orbits::orbit_set(ring, states[j]).contains(state) by {
            if orbits::orbit_set(ring, states[j]).contains(state) {
                lemma_sector_orbits_apart(ring, parents, sector, i, j, state);
            }
        }
    }
    assert forall|i: int, state: u128|
        0 <= i < states.len() && #[trigger] orbits::in_orbit(
            ring,
            #[trigger] states[i],
            state,
        ) implies lookup.contains_key(state) && lookup[state].representative == states[i]
        && lookup[state].orbit_size == sector.orbit_sizes@[i] by {
        assert(orbits::is_least(ring, states[i]));
        orbits::lemma_orbit_equivalence(ring, states[i], state);
        assert(orbits::orbit_set(ring, states[i]).contains(state));
        assert(parents.to_set().contains(state));
        let k = parents.index_of(state);
        assert(parents[k] == state);
        assert(orbits::in_orbit(ring, parents[k], state));
        assert(orbits::reached(ring, parents, state));
        assert(orbits::in_orbit(ring, state, states[i]));
        assert(lookup.contains_key(state));
        let found = lookup[state].representative;
        assert(orbits::describes(ring, state, lookup[state]));
        assert(orbits::in_orbit(ring, states[i], found));
        orbits::lemma_orbit_equivalence(ring, state, found);
        assert(orbits::in_orbit(ring, found, states[i]));
    }
    assert forall|state: u128| #[trigger] lookup.contains_key(state) <==> orbits::reached(
        ring,
        states,
        state,
    ) by {
        if lookup.contains_key(state) {
            assert(orbits::describes(ring, state, lookup[state]));
            lemma_reached_domain(ring, parents, state);
            let found = lookup[state].representative;
            let k = choose|k: int|
                0 <= k < parents.len() && orbits::in_orbit(ring, #[trigger] parents[k], state);
            orbits::lemma_orbit_equivalence(ring, parents[k], state);
            orbits::lemma_orbit_equivalence(ring, state, found);
            assert(orbits::in_orbit(ring, parents[k], found));
            assert(orbits::reached(ring, parents, found));
            assert(states.contains(found));
            let i = states.index_of(found);
            assert(orbits::in_orbit(ring, states[i], state));
        }
        if orbits::reached(ring, states, state) {
            let i = choose|i: int|
                0 <= i < states.len() && orbits::in_orbit(ring, #[trigger] states[i], state);
            assert(orbits::in_orbit(ring, states[i], state));
        }
    }
    assert forall|i: int| 0 <= i < states.len() implies lookup[#[trigger] states[i]].steps == 0 by {
        let neutral = ring.element_of(0, false);
        ring.lemma_element(0, false);
        lattice::law_full_turn(states[i] as nat, 0, ring.spec_sites(), ring.spec_base());
        lemma_mul_by_zero_is_zero(ring.spec_sites() as int);
        assert(ring.image(states[i], neutral) == states[i]);
        assert(orbits::in_orbit(ring, states[i], states[i]));
        assert(orbits::describes(ring, states[i], lookup[states[i]]));
        assert(ring.steps(states[i], neutral) == lookup[states[i]].steps);
        assert(ring.phase_steps(0, false) == 0) by {
            let k = match ring.spec_momentum() {
                Some(k) => k as nat,
                None => 0,
            };
            lemma_mul_basics(k as int);
            lemma_small_mod(0, 2 * ring.spec_sites());
        }
    }
}

} // verus!

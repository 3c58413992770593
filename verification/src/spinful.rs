//! Fermions with two flavors, packed as up orbitals followed by down orbitals.

use vstd::arithmetic::div_mod::*;
use vstd::arithmetic::mul::*;
use vstd::arithmetic::power2::*;
use vstd::prelude::*;

use crate::amplitudes::{LocalFactor, Turn};
use crate::basis::{Basis, Factor, Transitions};
use crate::bits;
use crate::boson;
use crate::boson::Word;
use crate::error::{OperatorFault, QmbedError, Reason, Result};
use crate::fermion;
use crate::fermion::apply_fermion;
use crate::occupation;
use crate::occupation::LocalOccupationConstraint;
use crate::ordered;
use crate::ordered::Ranked;
use crate::symbols;
use crate::symbols::{operator_chars, SymbolBuffer};
use crate::weights;
use crate::weights::fixed_weight_states;

verus! {

/// Occupation of the up orbitals.
pub open spec fn up_part(state: u128, sites: nat) -> nat {
    state as nat % pow2(sites)
}

/// Occupation of the down orbitals, with whatever lies above them.
pub open spec fn down_part(state: u128, sites: nat) -> nat {
    state as nat / pow2(sites)
}

/// Number by which states are ordered: the up orbitals are the major part.
pub open spec fn direct_product_key(state: u128, sites: nat) -> nat {
    up_part(state, sites) * pow2(sites) + down_part(state, sites)
}

/// Whether a weight is that of the selection.
pub open spec fn count_admits(count: usize, weight: nat) -> bool {
    count == usize::MAX || weight == count
}

/// Whether both weights are those of some listed pair.
pub open spec fn pairs_admit(pairs: Seq<(usize, usize)>, up: nat, down: nat) -> bool {
    exists|i: int|
        0 <= i < pairs.len() && count_admits((#[trigger] pairs[i]).0, up) && count_admits(
            pairs[i].1,
            down,
        )
}

/// The pairs of particle numbers that the choices select.
pub open spec fn selected_pairs(
    particles_up: Option<usize>,
    particles_down: Option<usize>,
    sectors: Option<Seq<(usize, usize)>>,
) -> Seq<(usize, usize)> {
    match sectors {
        Some(list) => list,
        None => seq![
            (
                match particles_up {
                    Some(count) => count,
                    None => usize::MAX,
                },
                match particles_down {
                    Some(count) => count,
                    None => usize::MAX,
                },
            ),
        ],
    }
}

/// States of two flavors with an admitted pair of particle numbers.
pub open spec fn in_pairs(state: u128, sites: nat, pairs: Seq<(usize, usize)>) -> bool {
    &&& state < pow2(2 * sites)
    &&& pairs_admit(
        pairs,
        bits::ones(up_part(state, sites)),
        bits::ones(down_part(state, sites)),
    )
}

/// Whether the optional constraint accepts the state.
pub open spec fn constraint_accepts(
    constraint: Option<LocalOccupationConstraint>,
    state: u128,
    sites: nat,
) -> bool {
    match constraint {
        Some(rule) => occupation::masks_allowed(
            state,
            sites,
            rule.spec_species() as nat,
            rule.spec_allowed(),
        ),
        None => true,
    }
}

/// What a basis of two flavors is: the selection and the listed states.
pub struct SpinfulModel {
    pub sites: usize,
    pub particles_up: Option<usize>,
    pub particles_down: Option<usize>,
    pub sectors: Option<Seq<(usize, usize)>>,
    pub constraint: Option<LocalOccupationConstraint>,
    pub states: Seq<u128>,
}

/// Whether a particle number fits the sites, or selects nothing.
pub open spec fn count_fits(count: usize, sites: usize) -> bool {
    count <= sites || count == usize::MAX
}

/// Whether all listed particle numbers fit.
pub open spec fn pairs_fit(pairs: Seq<(usize, usize)>, sites: usize) -> bool {
    forall|i: int|
        0 <= i < pairs.len() ==> count_fits((#[trigger] pairs[i]).0, sites) && count_fits(
            pairs[i].1,
            sites,
        )
}

impl SpinfulModel {
    /// The selected pairs of particle numbers.
    pub open spec fn pairs(self) -> Seq<(usize, usize)> {
        selected_pairs(self.particles_up, self.particles_down, self.sectors)
    }

    /// The invariant of a basis of two flavors.
    pub open spec fn wf(self) -> bool {
        let n = self.sites as nat;
        &&& self.sites <= 64
        &&& self.constraint matches Some(rule) ==> rule.wf() && rule.spec_species() == 2
        &&& self.sectors matches Some(list) ==> list.len() > 0
        &&& pairs_fit(self.pairs(), self.sites)
        &&& forall|i: int, j: int|
            0 <= i < j < self.states.len() ==> direct_product_key(#[trigger] self.states[i], n)
                < direct_product_key(#[trigger] self.states[j], n)
        &&& forall|state: u128| #[trigger]
            self.states.contains(state) <==> in_pairs(state, n, self.pairs()) && constraint_accepts(
                self.constraint,
                state,
                n,
            )
    }
}

/// Choices for a basis of two flavors, made one by one.
#[derive(Debug)]
pub struct SpinfulFermionBasisBuilder {
    pub sites: usize,
    pub particles_up: Option<usize>,
    pub particles_down: Option<usize>,
    pub particle_sectors: Option<Vec<(usize, usize)>>,
    pub local_occupation_constraint: Option<LocalOccupationConstraint>,
}

impl SpinfulFermionBasisBuilder {
    /// Selects a number of up particles.
    pub fn particles_up(self, particles: usize) -> (builder: Self)
        ensures
            builder == (SpinfulFermionBasisBuilder { particles_up: Some(particles), ..self }),
    {
        SpinfulFermionBasisBuilder { particles_up: Some(particles), ..self }
    }

    /// Selects a number of down particles.
    pub fn particles_down(self, particles: usize) -> (builder: Self)
        ensures
            builder == (SpinfulFermionBasisBuilder { particles_down: Some(particles), ..self }),
    {
        SpinfulFermionBasisBuilder { particles_down: Some(particles), ..self }
    }

    /// Selects the numbers of both flavors.
    pub fn particles(self, up: usize, down: usize) -> (builder: Self)
        ensures
            builder == (SpinfulFermionBasisBuilder {
                particles_up: Some(up),
                particles_down: Some(down),
                particle_sectors: None,
                ..self
            }),
    {
        SpinfulFermionBasisBuilder {
            particles_up: Some(up),
            particles_down: Some(down),
            particle_sectors: None,
            ..self
        }
    }

    /// Selects a union of pairs of numbers.
    pub fn particle_sectors(self, sectors: Vec<(usize, usize)>) -> (builder: Self)
        ensures
            builder == (SpinfulFermionBasisBuilder {
                particle_sectors: Some(sectors),
                particles_up: None,
                particles_down: None,
                ..self
            }),
    {
        SpinfulFermionBasisBuilder {
            particle_sectors: Some(sectors),
            particles_up: None,
            particles_down: None,
            ..self
        }
    }

    /// Restricts the occupations of the two flavors at each site.
    pub fn local_occupation_constraint(self, constraint: LocalOccupationConstraint) -> (builder:
        Self)
        ensures
            builder == (SpinfulFermionBasisBuilder {
                local_occupation_constraint: Some(constraint),
                ..self
            }),
    {
        SpinfulFermionBasisBuilder { local_occupation_constraint: Some(constraint), ..self }
    }
}

/// The refusal of the choices for a basis of two flavors, if they are refused.
pub open spec fn spinful_build_error(builder: SpinfulFermionBasisBuilder) -> Option<QmbedError> {
    let sectors = match builder.particle_sectors {
        Some(list) => Some(list@),
        None => None,
    };
    if builder.sites > 64 {
        Some(
            QmbedError::UnsupportedBackend(Reason::Text("the packed spinful backend supports at most 64 sites")),
        )
    } else if builder.local_occupation_constraint is Some
        && builder.local_occupation_constraint->0.spec_species() != 2 {
        Some(
            QmbedError::InvalidSector(
                Reason::Text("spinful fermions require a two-species local occupation constraint"),
            ),
        )
    } else if sectors is Some && sectors->0.len() == 0 {
        Some(QmbedError::InvalidSector(Reason::Text("spinful particle-sector union must be nonempty")))
    } else if !pairs_fit(
        selected_pairs(builder.particles_up, builder.particles_down, sectors),
        builder.sites,
    ) {
        Some(QmbedError::InvalidSector(Reason::Text("particle count exceeds site count")))
    } else {
        None
    }
}

/// Keys and states correspond one to one.
proof fn lemma_key_round_trip(code: u128, sites: nat)
    requires
        sites <= 64,
        code < pow2(2 * sites),
    ensures
        direct_product_key(code, sites) < pow2(2 * sites),
        direct_product_key(code, sites) <= u128::MAX,
        direct_product_key(direct_product_key(code, sites) as u128, sites) == code,
        up_part(code, sites) == direct_product_key(code, sites) / pow2(sites),
        down_part(code, sites) == direct_product_key(code, sites) % pow2(sites),
        up_part(code, sites) < pow2(sites),
        down_part(code, sites) < pow2(sites),
        code == down_part(code, sites) * pow2(sites) + up_part(code, sites),
{
    let p = pow2(sites) as int;
    let x = code as int;
    lemma_pow2_pos(sites);
    lemma_pow2_adds(sites, sites);
    bits::lemma_pow2_128();
    if 2 * sites < 128 {
        lemma_pow2_strictly_increases(2 * sites, 128);
    }
    lemma_fundamental_div_mod(x, p);
    lemma_mod_bound(x, p);
    lemma_multiply_divide_lt(x, p, p);
    let up = x % p;
    let down = x / p;
    lemma_mul_is_commutative(p, down);
    assert(up * p + down < p * p) by (nonlinear_arith)
        requires
            0 <= up < p,
            0 <= down < p,
    ;
    lemma_mul_nonnegative(up, p);
    lemma_fundamental_div_mod_converse(up * p + down, p, up, down);
}

/// Appends the keys of all pairs of an up and a down occupation.
fn append_pair_keys(
    up_states: &Vec<u128>,
    down_states: &Vec<u128>,
    sites: usize,
    keys: &mut Vec<u128>,
)
    requires
        sites <= 64,
        forall|i: int| 0 <= i < up_states@.len() ==> #[trigger] up_states@[i] < pow2(sites as nat),
        forall|i: int|
            0 <= i < down_states@.len() ==> #[trigger] down_states@[i] < pow2(sites as nat),
    ensures
        forall|key: u128| #[trigger]
            final(keys)@.contains(key) <==> old(keys)@.contains(key) || (up_states@.contains(
                (key as nat / pow2(sites as nat)) as u128,
            ) && down_states@.contains((key as nat % pow2(sites as nat)) as u128)),
{
    let ghost p = pow2(sites as nat);
    let ghost start = keys@;
    proof {
        bits::lemma_pow2_128();
        lemma_pow2_pos(sites as nat);
        lemma_pow2_adds(64, 64);
        if sites < 64 {
            lemma_pow2_strictly_increases(sites as nat, 64);
        }
        lemma2_to64();
        bits::lemma_shl_one(sites as u32);
    }
    let scale: u128 = 1u128 << sites;
    let mut i: usize = 0;
    while i < up_states.len()
        invariant
            i <= up_states@.len(),
            scale == p,
            0 < p <= 0x1_0000_0000_0000_0000,
            p == pow2(sites as nat),
            forall|a: int| 0 <= a < up_states@.len() ==> #[trigger] up_states@[a] < p,
            forall|a: int| 0 <= a < down_states@.len() ==> #[trigger] down_states@[a] < p,
            forall|key: u128| #[trigger]
                keys@.contains(key) <==> start.contains(key) || (up_states@.take(
                    i as int,
                ).contains((key as nat / p) as u128) && down_states@.contains(
                    (key as nat % p) as u128,
                )),
        decreases up_states@.len() - i,
    {
        let up: u128 = up_states[i];
        let ghost seen = up_states@.take(i as int);
        let ghost before = keys@;
        let mut j: usize = 0;
        assert(down_states@.take(0) =~= Seq::empty());
        while j < down_states.len()
            invariant
                j <= down_states@.len(),
                i < up_states@.len(),
                up == up_states@[i as int],
                scale == p,
                0 < p <= 0x1_0000_0000_0000_0000,
                forall|a: int| 0 <= a < up_states@.len() ==> #[trigger] up_states@[a] < p,
                forall|a: int| 0 <= a < down_states@.len() ==> #[trigger] down_states@[a] < p,
                forall|key: u128| #[trigger]
                    keys@.contains(key) <==> before.contains(key) || ((key as nat / p) == up
                        && down_states@.take(j as int).contains((key as nat % p) as u128)),
            decreases down_states@.len() - j,
        {
            let down: u128 = down_states[j];
            proof {
                assert(up * p + down <= u128::MAX) by (nonlinear_arith)
                    requires
                        up < p,
                        down < p,
                        0 < p <= 0x1_0000_0000_0000_0000,
                ;
                lemma_mul_nonnegative(up as int, p as int);
                lemma_fundamental_div_mod_converse(
                    up * p + down,
                    p as int,
                    up as int,
                    down as int,
                );
            }
            let key: u128 = up * scale + down;
            let ghost inner = keys@;
            let ghost downs = down_states@.take(j as int);
            keys.push(key);
            proof {
                assert(down_states@.take(j + 1) =~= downs.push(down));
                assert forall|other: u128| #[trigger] keys@.contains(other) <==> before.contains(
                    other,
                ) || ((other as nat / p) == up && down_states@.take(j + 1).contains(
                    (other as nat % p) as u128,
                )) by {
                    vstd::seq_lib::lemma_seq_contains_after_push(inner, key, other);
                    vstd::seq_lib::lemma_seq_contains_after_push(
                        downs,
                        down,
                        (other as nat % p) as u128,
                    );
                    assert(inner.contains(other) <==> before.contains(other) || ((other as nat / p)
                        == up && downs.contains((other as nat % p) as u128)));
                    if (other as nat / p) == up && (other as nat % p) as u128 == down {
                        lemma_fundamental_div_mod(other as int, p as int);
                        lemma_mul_is_commutative(p as int, up as int);
                        lemma_mod_bound(other as int, p as int);
                    }
                }
            }
            j += 1;
        }
        proof {
            assert(down_states@.take(j as int) =~= down_states@);
            assert(up_states@.take(i + 1) =~= seen.push(up));
            assert forall|key: u128| #[trigger] keys@.contains(key) <==> start.contains(key) || (
            up_states@.take(i + 1).contains((key as nat / p) as u128) && down_states@.contains(
                (key as nat % p) as u128,
            )) by {
                vstd::seq_lib::lemma_seq_contains_after_push(seen, up, (key as nat / p) as u128);
                assert(before.contains(key) <==> start.contains(key) || (seen.contains(
                    (key as nat / p) as u128,
                ) && down_states@.contains((key as nat % p) as u128)));
                lemma_div_nonincreasing(key as int, p as int);
            }
        }
        i += 1;
    }
    assert(up_states@.take(i as int) =~= up_states@);
}

/// A key as the state that it stands for.
fn state_of_key(key: u128, sites: usize) -> (state: u128)
    requires
        sites <= 64,
        key < pow2(2 * sites as nat),
    ensures
        state == direct_product_key(key, sites as nat),
        direct_product_key(state, sites as nat) == key,
        state < pow2(2 * sites as nat),
{
    proof {
        lemma_key_round_trip(key, sites as nat);
        bits::lemma_shl_one(sites as u32);
        lemma_pow2_pos(sites as nat);
        lemma_mul_nonnegative(
            up_part(key, sites as nat) as int,
            pow2(sites as nat) as int,
        );
    }
    let scale: u128 = 1u128 << sites;
    (key % scale) * scale + key / scale
}

/// Two-flavor fermion basis with all up orbitals ordered before all down orbitals.
///
/// Rows follow the direct-product convention: the up row is the major index and
/// the down row is the minor index.
#[derive(Debug)]
pub struct SpinfulFermionBasis1D {
    sites: usize,
    particles_up: Option<usize>,
    particles_down: Option<usize>,
    particle_sectors: Option<Vec<(usize, usize)>>,
    local_occupation_constraint: Option<LocalOccupationConstraint>,
    states: Vec<u128>,
    keys: Vec<u128>,
}

impl View for SpinfulFermionBasis1D {
    type V = SpinfulModel;

    closed spec fn view(&self) -> SpinfulModel {
        SpinfulModel {
            sites: self.sites,
            particles_up: self.particles_up,
            particles_down: self.particles_down,
            sectors: match self.particle_sectors {
                Some(list) => Some(list@),
                None => None,
            },
            constraint: self.local_occupation_constraint,
            states: self.states@,
        }
    }
}

/// Keys of the states of the first `count` pairs.
spec fn lists_pair_keys(keys: Seq<u128>, sites: nat, pairs: Seq<(usize, usize)>) -> bool {
    forall|key: u128| #[trigger]
        keys.contains(key) <==> key < pow2(2 * sites) && pairs_admit(
            pairs,
            bits::ones(key as nat / pow2(sites)),
            bits::ones(key as nat % pow2(sites)),
        )
}

/// Admitting one more pair.
proof fn lemma_pairs_admit_push(
    pairs: Seq<(usize, usize)>,
    pair: (usize, usize),
    up: nat,
    down: nat,
)
    ensures
        pairs_admit(pairs.push(pair), up, down) <==> pairs_admit(pairs, up, down) || (count_admits(
            pair.0,
            up,
        ) && count_admits(pair.1, down)),
{
    let wider = pairs.push(pair);
    if pairs_admit(pairs, up, down) {
        let i = choose|i: int|
            0 <= i < pairs.len() && count_admits((#[trigger] pairs[i]).0, up) && count_admits(
                pairs[i].1,
                down,
            );
        assert(wider[i] == pairs[i]);
    }
    if count_admits(pair.0, up) && count_admits(pair.1, down) {
        assert(wider[pairs.len() as int] == pair);
    }
    if pairs_admit(wider, up, down) {
        let i = choose|i: int|
            0 <= i < wider.len() && count_admits((#[trigger] wider[i]).0, up) && count_admits(
                wider[i].1,
                down,
            );
        if i < pairs.len() {
            assert(pairs[i] == wider[i]);
        }
    }
}

/// The states of one flavor with a selected particle number.
fn flavor_states(sites: usize, count: usize) -> (result: Result<Vec<u128>>)
    requires
        sites <= 64,
    ensures
        match result {
            Ok(states) => {
                &&& count_fits(count, sites)
                &&& forall|state: u128| #[trigger]
                    states@.contains(state) <==> state < pow2(sites as nat) && count_admits(
                        count,
                        bits::ones(state as nat),
                    )
                &&& forall|i: int|
                    0 <= i < states@.len() ==> #[trigger] states@[i] < pow2(sites as nat)
            },
            Err(error) => {
                &&& !count_fits(count, sites)
                &&& error == QmbedError::InvalidSector(Reason::Text("particle count exceeds site count"))
            },
        },
{
    let selection: Option<usize> = if count == usize::MAX {
        None
    } else {
        Some(count)
    };
    match fixed_weight_states(sites, selection) {
        Ok(states) => {
            proof {
                assert forall|state: u128| #[trigger] states@.contains(state) <==> state < pow2(
                    sites as nat,
                ) && count_admits(count, bits::ones(state as nat)) by {
                    assert(states@.contains(state) <==> weights::in_weight_sector(
                        state,
                        sites as nat,
                        selection,
                    ));
                }
                assert forall|i: int| 0 <= i < states@.len() implies #[trigger] states@[i] < pow2(
                    sites as nat,
                ) by {
                    assert(states@.contains(states@[i]));
                }
            }
            Ok(states)
        },
        Err(error) => Err(error),
    }
}

/// The keys of all states with an admitted pair of particle numbers.
fn pair_keys(sites: usize, pairs: &Vec<(usize, usize)>) -> (result: Result<Vec<u128>>)
    requires
        sites <= 64,
    ensures
        match result {
            Ok(keys) => {
                &&& pairs_fit(pairs@, sites)
                &&& lists_pair_keys(keys@, sites as nat, pairs@)
            },
            Err(error) => {
                &&& !pairs_fit(pairs@, sites)
                &&& error == QmbedError::InvalidSector(Reason::Text("particle count exceeds site count"))
            },
        },
{
    let ghost n = sites as nat;
    let ghost p = pow2(n);
    let mut keys: Vec<u128> = Vec::new();
    let mut next: usize = 0;
    while next < pairs.len()
        invariant
            next <= pairs@.len(),
            sites <= 64,
            n == sites,
            p == pow2(n),
            pairs_fit(pairs@.take(next as int), sites),
            lists_pair_keys(keys@, n, pairs@.take(next as int)),
        decreases pairs@.len() - next,
    {
        let pair: (usize, usize) = pairs[next];
        let ghost seen = pairs@.take(next as int);
        let ghost wider = pairs@.take(next + 1);
        let ghost before = keys@;
        assert(wider =~= seen.push(pair));
        let up_states: Vec<u128> = match flavor_states(sites, pair.0) {
            Ok(states) => states,
            Err(error) => {
                assert(!count_fits(pairs@[next as int].0, sites));
                return Err(error);
            },
        };
        let down_states: Vec<u128> = match flavor_states(sites, pair.1) {
            Ok(states) => states,
            Err(error) => {
                assert(!count_fits(pairs@[next as int].1, sites));
                return Err(error);
            },
        };
        append_pair_keys(&up_states, &down_states, sites, &mut keys);
        proof {
            lemma_pow2_pos(n);
            lemma_pow2_adds(n, n);
            assert forall|key: u128| #[trigger] keys@.contains(key) <==> key < pow2(2 * n)
                && pairs_admit(
                wider,
                bits::ones(key as nat / pow2(n)),
                bits::ones(key as nat % pow2(n)),
            ) by {
                let up = key as nat / p;
                let down = key as nat % p;
                lemma_pairs_admit_push(seen, pair, bits::ones(up), bits::ones(down));
                lemma_mod_bound(key as int, p as int);
                lemma_div_nonincreasing(key as int, p as int);
                lemma_mod_decreases(key as nat, p);
                if key < pow2(2 * n) {
                    lemma_multiply_divide_lt(key as int, p as int, p as int);
                }
                if up < p {
                    lemma_fundamental_div_mod(key as int, p as int);
                    assert(key < p * p) by (nonlinear_arith)
                        requires
                            key as int == p * up + down,
                            up < p,
                            down < p,
                    ;
                }
                assert(before.contains(key) <==> key < pow2(2 * n) && pairs_admit(
                    seen,
                    bits::ones(up),
                    bits::ones(down),
                ));
                assert(up_states@.contains(up as u128) <==> (up as u128) < pow2(n) && count_admits(
                    pair.0,
                    bits::ones(up),
                ));
                assert(down_states@.contains(down as u128) <==> (down as u128) < pow2(n)
                    && count_admits(pair.1, bits::ones(down)));
            }
            assert forall|i: int| 0 <= i < wider.len() implies count_fits(
                (#[trigger] wider[i]).0,
                sites,
            ) && count_fits(wider[i].1, sites) by {
                if i < next {
                    assert(wider[i] == seen[i]);
                }
            }
        }
        next += 1;
    }
    assert(pairs@.take(next as int) =~= pairs@);
    Ok(keys)
}

impl SpinfulFermionBasisBuilder {
    /// The selected pairs as a list.
    fn pair_list(&self) -> (pairs: Vec<(usize, usize)>)
        ensures
            pairs@ == selected_pairs(
                self.particles_up,
                self.particles_down,
                match self.particle_sectors {
                    Some(list) => Some(list@),
                    None => None,
                },
            ),
    {
        match &self.particle_sectors {
            Some(list) => ordered::copy_list(list),
            None => {
                let up: usize = match self.particles_up {
                    Some(count) => count,
                    None => usize::MAX,
                };
                let down: usize = match self.particles_down {
                    Some(count) => count,
                    None => usize::MAX,
                };
                let mut pairs: Vec<(usize, usize)> = Vec::new();
                pairs.push((up, down));
                assert(pairs@ =~= seq![(up, down)]);
                pairs
            },
        }
    }

    /// Builds the basis that the choices describe.
    pub fn build(self) -> (result: Result<SpinfulFermionBasis1D>)
        requires
            self.local_occupation_constraint matches Some(rule) ==> rule.wf(),
        ensures
            match result {
                Ok(basis) => {
                    &&& spinful_build_error(self) is None
                    &&& basis.wf()
                    &&& basis@.sites == self.sites
                    &&& basis@.particles_up == self.particles_up
                    &&& basis@.particles_down == self.particles_down
                    &&& basis@.sectors == match self.particle_sectors {
                        Some(list) => Some(list@),
                        None => None,
                    }
                    &&& basis@.constraint == self.local_occupation_constraint
                },
                Err(error) => spinful_build_error(self) == Some(error),
            },
    {
        if self.sites > 64 {
            return Err(
                QmbedError::UnsupportedBackend(
                    Reason::Text("the packed spinful backend supports at most 64 sites"),
                ),
            );
        }
        if let Some(rule) = &self.local_occupation_constraint {
            if rule.species() != 2 {
                return Err(
                    QmbedError::InvalidSector(
                        Reason::Text("spinful fermions require a two-species local occupation constraint"),
                    ),
                );
            }
        }
        if let Some(list) = &self.particle_sectors {
            if list.len() == 0 {
                return Err(
                    QmbedError::InvalidSector(Reason::Text("spinful particle-sector union must be nonempty")),
                );
            }
        }
        let pairs: Vec<(usize, usize)> = self.pair_list();
        let unordered: Vec<u128> = match pair_keys(self.sites, &pairs) {
            Ok(keys) => keys,
            Err(error) => {
                return Err(error);
            },
        };
        let ordered_keys: Vec<u128> = ordered::sort_dedup(&unordered);
        let ghost n = self.sites as nat;
        let mut states: Vec<u128> = Vec::new();
        let mut keys: Vec<u128> = Vec::new();
        let mut next: usize = 0;
        while next < ordered_keys.len()
            invariant
                next <= ordered_keys@.len(),
                self.sites <= 64,
                n == self.sites,
                self.local_occupation_constraint matches Some(rule) ==> rule.wf()
                    && rule.spec_species() == 2,
                ordered::strictly_sorted(ordered_keys@),
                lists_pair_keys(unordered@, n, pairs@),
                forall|key: u128| #[trigger]
                    ordered_keys@.contains(key) <==> unordered@.contains(key),
                states@.len() == keys@.len(),
                ordered::strictly_sorted(keys@),
                forall|i: int| 0 <= i < keys@.len() ==> keys_match(keys@[i], #[trigger] states@[i], n),
                forall|key: u128| #[trigger]
                    keys@.contains(key) <==> ordered_keys@.take(next as int).contains(key)
                        && constraint_accepts(
                        self.local_occupation_constraint,
                        direct_product_key(key, n) as u128,
                        n,
                    ),
            decreases ordered_keys@.len() - next,
        {
            let key: u128 = ordered_keys[next];
            proof {
                assert(ordered_keys@.contains(key));
                assert(unordered@.contains(key));
            }
            let state: u128 = state_of_key(key, self.sites);
            let ghost before = keys@;
            let ghost seen = ordered_keys@.take(next as int);
            let accepted: bool = match &self.local_occupation_constraint {
                Some(rule) => match rule.accepts_packed_state(state, self.sites) {
                    Ok(accepted) => accepted,
                    Err(error) => {
                        return Err(error);
                    },
                },
                None => true,
            };
            if accepted {
                states.push(state);
                keys.push(key);
            }
            proof {
                assert(ordered_keys@.take(next + 1) =~= seen.push(key));
                assert forall|other: u128| #[trigger] keys@.contains(other) <==> ordered_keys@.take(
                    next + 1,
                ).contains(other) && constraint_accepts(
                    self.local_occupation_constraint,
                    direct_product_key(other, n) as u128,
                    n,
                ) by {
                    vstd::seq_lib::lemma_seq_contains_after_push(seen, key, other);
                    assert(before.contains(other) <==> seen.contains(other) && constraint_accepts(
                        self.local_occupation_constraint,
                        direct_product_key(other, n) as u128,
                        n,
                    ));
                    if accepted {
                        vstd::seq_lib::lemma_seq_contains_after_push(before, key, other);
                    }
                }
                assert forall|i: int, j: int| 0 <= i < j < keys@.len() implies keys@[i].rank()
                    < keys@[j].rank() by {
                    if accepted && j == before.len() {
                        assert(before.contains(before[i]));
                        let q = choose|q: int| 0 <= q < seen.len() && seen[q] == before[i];
                        assert(ordered_keys@[q].rank() < ordered_keys@[next as int].rank());
                    }
                }
            }
            next += 1;
        }
        proof {
            assert(ordered_keys@.take(next as int) =~= ordered_keys@);
            assert forall|state: u128| #[trigger] states@.contains(state) <==> in_pairs(
                state,
                n,
                pairs@,
            ) && constraint_accepts(self.local_occupation_constraint, state, n) by {
                if states@.contains(state) {
                    let i = choose|i: int| 0 <= i < states@.len() && states@[i] == state;
                    assert(keys_match(keys@[i], states@[i], n));
                    assert(keys@.contains(keys@[i]));
                    lemma_key_round_trip(state, n);
                    assert(ordered_keys@.contains(keys@[i]));
                    assert(unordered@.contains(keys@[i]));
                }
                if in_pairs(state, n, pairs@) && constraint_accepts(
                    self.local_occupation_constraint,
                    state,
                    n,
                ) {
                    lemma_key_round_trip(state, n);
                    let key = direct_product_key(state, n) as u128;
                    assert(unordered@.contains(key));
                    assert(ordered_keys@.contains(key));
                    assert(keys@.contains(key));
                    let i = choose|i: int| 0 <= i < keys@.len() && keys@[i] == key;
                    assert(keys_match(keys@[i], states@[i], n));
                    lemma_key_round_trip(states@[i], n);
                    assert(states@[i] == state);
                }
            }
            assert forall|i: int, j: int| 0 <= i < j < states@.len() implies direct_product_key(
                #[trigger] states@[i],
                n,
            ) < direct_product_key(#[trigger] states@[j], n) by {
                assert(keys_match(keys@[i], states@[i], n));
                assert(keys_match(keys@[j], states@[j], n));
                assert(keys@[i].rank() < keys@[j].rank());
            }
        }
        Ok(
            SpinfulFermionBasis1D {
                sites: self.sites,
                particles_up: self.particles_up,
                particles_down: self.particles_down,
                particle_sectors: self.particle_sectors,
                local_occupation_constraint: self.local_occupation_constraint,
                states,
                keys,
            },
        )
    }
}

/// Whether a key and a state belong together.
pub open spec fn keys_match(key: u128, state: u128, sites: nat) -> bool {
    &&& state < pow2(2 * sites)
    &&& key == direct_product_key(state, sites)
    &&& state == direct_product_key(key, sites)
}

/// Orbital of a site: below the split the site counts up orbitals, from it on
/// down orbitals; without a split it counts all orbitals.
pub open spec fn orbital_of(chain_sites: usize, split: Option<usize>, position: nat, site: usize) ->
    core::result::Result<nat, QmbedError> {
    match split {
        Some(boundary) => if site >= chain_sites {
            Err(QmbedError::InvalidSite { site, sites: chain_sites })
        } else if position < boundary {
            Ok(site as nat)
        } else {
            Ok((chain_sites + site) as nat)
        },
        None => if site >= 2 * chain_sites {
            Err(QmbedError::InvalidSite { site, sites: (2 * chain_sites) as usize })
        } else {
            Ok(site as nat)
        },
    }
}

/// Destination of the first `remaining` symbols, applied from the last to the
/// first, with the factors gathered so far in front.
pub open spec fn spinful_word(
    chain_sites: usize,
    state: u128,
    symbols: Seq<char>,
    split: Option<usize>,
    sites: Seq<usize>,
    remaining: nat,
    amplitude: Seq<LocalFactor>,
) -> Word
    decreases remaining,
{
    if remaining == 0 {
        Ok(Some((state, amplitude)))
    } else {
        let position = (remaining - 1) as nat;
        match orbital_of(chain_sites, split, position, sites[position as int]) {
            Err(error) => Err(error),
            Ok(orbital) => match fermion::fermion_step(state, orbital, symbols[position as int]) {
                Err(error) => Err(error),
                Ok(None) => Ok(None),
                Ok(Some(step)) => spinful_word(
                    chain_sites,
                    step.0,
                    symbols,
                    split,
                    sites,
                    position,
                    amplitude.push(step.1),
                ),
            },
        }
    }
}

/// Destination of a list of symbols.
pub open spec fn spinful_symbol_action(
    chain_sites: usize,
    state: u128,
    symbols: Seq<char>,
    split: Option<usize>,
    sites: Seq<usize>,
) -> Word {
    if symbols.len() != sites.len() || (split is Some && split->0 > symbols.len()) {
        Err(
            QmbedError::InvalidCoupling(Reason::Arity {
                symbols: symbols.len() as usize,
                sites: sites.len() as usize,
            }),
        )
    } else {
        spinful_word(chain_sites, state, symbols, split, sites, symbols.len(), Seq::empty())
    }
}

/// Number of symbols before the first separator, if there is one.
pub open spec fn split_of(operator: Seq<char>) -> Option<usize> {
    if operator.contains('|') {
        Some(symbols::first_separator(operator) as usize)
    } else {
        None
    }
}

/// Destination of an operator string.
pub open spec fn spinful_action(
    chain_sites: usize,
    state: u128,
    operator: Seq<char>,
    sites: Seq<usize>,
) -> Word {
    let symbols = symbols::without_separators(operator);
    if symbols.len() != sites.len() {
        Err(
            QmbedError::InvalidCoupling(Reason::Arity {
                symbols: symbols.len() as usize,
                sites: sites.len() as usize,
            }),
        )
    } else {
        spinful_symbol_action(chain_sites, state, symbols, split_of(operator), sites)
    }
}

/// A particle number in signed arithmetic, where the largest one is minus one.
pub open spec fn signed_count(count: usize) -> int {
    if count == usize::MAX {
        -1
    } else {
        count as int
    }
}

/// Whether the list holds the pair.
pub open spec fn lists_pair(pairs: Seq<(usize, usize)>, up: int, down: int) -> bool {
    exists|i: int|
        0 <= i < pairs.len() && (#[trigger] pairs[i]).0 == up && pairs[i].1 == down
}

/// Whether a change of both numbers leads from every listed pair to a listed one.
pub open spec fn pairs_preserved(
    pairs: Seq<(usize, usize)>,
    sites: usize,
    up_change: int,
    down_change: int,
) -> bool {
    forall|i: int|
        0 <= i < pairs.len() ==> {
            let up = signed_count((#[trigger] pairs[i]).0) + up_change;
            let down = signed_count(pairs[i].1) + down_change;
            0 <= up <= sites && 0 <= down <= sites && lists_pair(pairs, up, down)
        }
}

/// Whether known changes of both numbers keep the selection of a basis.
pub open spec fn changes_kept(
    model: SpinfulModel,
    up_change: Option<int>,
    down_change: Option<int>,
) -> bool {
    match model.sectors {
        Some(list) => up_change is Some && down_change is Some && pairs_preserved(
            list,
            model.sites,
            up_change->0,
            down_change->0,
        ),
        None => {
            &&& model.particles_up is Some ==> up_change == Some(0int)
            &&& model.particles_down is Some ==> down_change == Some(0int)
        },
    }
}

/// Whether nothing is selected.
pub open spec fn nothing_selected(model: SpinfulModel) -> bool {
    model.particles_up is None && model.sectors is None && model.particles_down is None
}

/// Whether an operator string, split into flavors at its separator, keeps the
/// selection of a basis.
pub open spec fn spinful_preserves(model: SpinfulModel, operator: Seq<char>) -> core::result::Result<
    bool,
    QmbedError,
> {
    let place = symbols::first_separator(operator);
    let up = operator.take(place);
    let down = if place < operator.len() {
        operator.skip(place + 1)
    } else {
        Seq::empty()
    };
    if down.contains('|') {
        Err(QmbedError::InvalidOperator(OperatorFault::Whole))
    } else {
        match symbols::number_change(up, 0) {
            Err(error) => Err(error),
            Ok(None) => Ok(nothing_selected(model)),
            Ok(Some(up_change)) => match symbols::number_change(down, 0) {
                Err(error) => Err(error),
                Ok(None) => Ok(nothing_selected(model)),
                Ok(Some(down_change)) => Ok(
                    changes_kept(model, Some(up_change), Some(down_change)),
                ),
            },
        }
    }
}

/// Changes of both numbers by the first `count` symbols on numbered orbitals.
pub open spec fn flavor_changes(
    chain_sites: usize,
    symbols: Seq<char>,
    sites: Seq<usize>,
    count: nat,
) -> core::result::Result<(Option<int>, Option<int>), QmbedError>
    decreases count,
{
    if count == 0 {
        Ok((Some(0int), Some(0int)))
    } else {
        let last = (count - 1) as nat;
        match flavor_changes(chain_sites, symbols, sites, last) {
            Err(error) => Err(error),
            Ok((up, down)) => {
                let symbol = symbols[last as int];
                let orbital = sites[last as int];
                let current = if orbital >= chain_sites {
                    down
                } else {
                    up
                };
                let next = if symbol == '+' {
                    match current {
                        Some(change) => Some(change + 1),
                        None => None,
                    }
                } else if symbol == '-' {
                    match current {
                        Some(change) => Some(change - 1),
                        None => None,
                    }
                } else if symbol == 'x' || symbol == 'y' {
                    None
                } else {
                    current
                };
                if orbital >= 2 * chain_sites {
                    Err(
                        QmbedError::InvalidSite {
                            site: orbital,
                            sites: (2 * chain_sites) as usize,
                        },
                    )
                } else if symbol != '+' && symbol != '-' && symbol != 'x' && symbol != 'y' && symbol
                    != 'I' && symbol != 'n' && symbol != 'z' {
                    Err(QmbedError::InvalidOperator(OperatorFault::Whole))
                } else if orbital >= chain_sites {
                    Ok((up, next))
                } else {
                    Ok((next, down))
                }
            },
        }
    }
}

/// Whether an operator string on numbered orbitals keeps the selection of a basis.
pub open spec fn spinful_preserves_on_sites(
    model: SpinfulModel,
    operator: Seq<char>,
    sites: Seq<usize>,
) -> core::result::Result<bool, QmbedError> {
    let symbols = symbols::without_separators(operator);
    if operator.contains('|') {
        spinful_preserves(model, operator)
    } else if symbols.len() != sites.len() {
        Err(
            QmbedError::InvalidCoupling(Reason::Arity {
                symbols: symbols.len() as usize,
                sites: sites.len() as usize,
            }),
        )
    } else {
        match flavor_changes(model.sites, symbols, sites, symbols.len()) {
            Err(error) => Err(error),
            Ok((up, down)) => Ok(changes_kept(model, up, down)),
        }
    }
}

/// A particle number in signed arithmetic.
fn signed(count: usize, sites: usize) -> (value: i64)
    requires
        sites <= 64,
        count_fits(count, sites),
    ensures
        value == signed_count(count),
        -1 <= value <= 64,
{
    if count == usize::MAX {
        -1
    } else {
        count as i64
    }
}

/// Whether the list holds the pair.
fn holds_pair(pairs: &Vec<(usize, usize)>, up: usize, down: usize) -> (held: bool)
    ensures
        held == lists_pair(pairs@, up as int, down as int),
{
    let mut next: usize = 0;
    while next < pairs.len()
        invariant
            next <= pairs@.len(),
            forall|i: int|
                0 <= i < next ==> !((#[trigger] pairs@[i]).0 == up && pairs@[i].1 == down),
        decreases pairs@.len() - next,
    {
        if pairs[next].0 == up && pairs[next].1 == down {
            assert(pairs@[next as int].0 == up);
            return true;
        }
        next += 1;
    }
    false
}

/// Whether a change of both numbers leads from every listed pair to a listed one.
fn pairs_kept(pairs: &Vec<(usize, usize)>, sites: usize, up_change: i32, down_change: i32) -> (kept:
    bool)
    requires
        sites <= 64,
        pairs_fit(pairs@, sites),
    ensures
        kept == pairs_preserved(pairs@, sites, up_change as int, down_change as int),
{
    let mut next: usize = 0;
    while next < pairs.len()
        invariant
            next <= pairs@.len(),
            sites <= 64,
            pairs_fit(pairs@, sites),
            forall|i: int|
                0 <= i < next ==> {
                    let up = signed_count((#[trigger] pairs@[i]).0) + up_change;
                    let down = signed_count(pairs@[i].1) + down_change;
                    0 <= up <= sites && 0 <= down <= sites && lists_pair(pairs@, up, down)
                },
        decreases pairs@.len() - next,
    {
        let pair: (usize, usize) = pairs[next];
        assert(count_fits(pairs@[next as int].0, sites));
        let up: i64 = signed(pair.0, sites) + up_change as i64;
        let down: i64 = signed(pair.1, sites) + down_change as i64;
        if up < 0 || up > sites as i64 || down < 0 || down > sites as i64 {
            return false;
        }
        if !holds_pair(pairs, up as usize, down as usize) {
            return false;
        }
        next += 1;
    }
    true
}

impl SpinfulFermionBasis1D {
    /// The stored keys are those of the states.
    pub closed spec fn tables_agree(&self) -> bool {
        &&& self.keys@.len() == self.states@.len()
        &&& ordered::strictly_sorted(self.keys@)
        &&& forall|i: int|
            0 <= i < self.keys@.len() ==> keys_match(
                self.keys@[i],
                #[trigger] self.states@[i],
                self.sites as nat,
            )
    }

    /// Starts the choices for a chain of fermions with two flavors.
    pub fn builder(sites: usize) -> (builder: SpinfulFermionBasisBuilder)
        ensures
            builder == (SpinfulFermionBasisBuilder {
                sites,
                particles_up: None,
                particles_down: None,
                particle_sectors: None,
                local_occupation_constraint: None,
            }),
    {
        SpinfulFermionBasisBuilder {
            sites,
            particles_up: None,
            particles_down: None,
            particle_sectors: None,
            local_occupation_constraint: None,
        }
    }

    /// Number of sites.
    pub fn sites(&self) -> (sites: usize)
        ensures
            sites == self@.sites,
    {
        self.sites
    }

    /// The selected number of up particles.
    pub fn particles_up(&self) -> (particles: Option<usize>)
        ensures
            particles == self@.particles_up,
    {
        self.particles_up
    }

    /// The selected number of down particles.
    pub fn particles_down(&self) -> (particles: Option<usize>)
        ensures
            particles == self@.particles_down,
    {
        self.particles_down
    }

    /// The selected union of pairs of numbers.
    pub fn particle_sectors(&self) -> (sectors: Option<&Vec<(usize, usize)>>)
        ensures
            match sectors {
                Some(list) => self@.sectors == Some(list@),
                None => self@.sectors is None,
            },
    {
        match &self.particle_sectors {
            Some(list) => Some(list),
            None => None,
        }
    }

    /// The restriction of the occupations at each site.
    pub fn local_occupation_constraint(&self) -> (constraint: Option<&LocalOccupationConstraint>)
        ensures
            match constraint {
                Some(rule) => self@.constraint == Some(*rule),
                None => self@.constraint is None,
            },
    {
        match &self.local_occupation_constraint {
            Some(rule) => Some(rule),
            None => None,
        }
    }

    /// Destination of a list of symbols, the last one applied first.
    pub fn apply_local_symbols(
        &self,
        state: u128,
        symbols: &[char],
        split: Option<usize>,
        sites: &[usize],
    ) -> (result: Result<Option<(u128, Vec<LocalFactor>)>>)
        requires
            self.wf(),
        ensures
            boson::word_is(
                result,
                spinful_symbol_action(self@.sites, state, symbols@, split, sites@),
            ),
    {
        let arity = QmbedError::InvalidCoupling(Reason::Arity { symbols: symbols.len(), sites: sites.len() });
        if symbols.len() != sites.len() {
            return Err(arity);
        }
        if let Some(boundary) = split {
            if boundary > symbols.len() {
                return Err(arity);
            }
        }
        let mut current: u128 = state;
        let mut amplitude: Vec<LocalFactor> = Vec::new();
        let mut remaining: usize = symbols.len();
        while remaining > 0
            invariant
                remaining <= symbols@.len(),
                symbols@.len() == sites@.len(),
                self.wf(),
                spinful_word(
                    self@.sites,
                    current,
                    symbols@,
                    split,
                    sites@,
                    remaining as nat,
                    amplitude@,
                ) == spinful_symbol_action(self@.sites, state, symbols@, split, sites@),
            decreases remaining,
        {
            let position: usize = remaining - 1;
            let site: usize = sites[position];
            let orbital: usize = match split {
                Some(boundary) => {
                    if site >= self.sites {
                        return Err(QmbedError::InvalidSite { site, sites: self.sites });
                    }
                    if position < boundary {
                        site
                    } else {
                        self.sites + site
                    }
                },
                None => {
                    if site >= 2 * self.sites {
                        return Err(QmbedError::InvalidSite { site, sites: 2 * self.sites });
                    }
                    site
                },
            };
            match apply_fermion(current, orbital, symbols[position]) {
                Err(error) => {
                    return Err(error);
                },
                Ok(None) => {
                    return Ok(None);
                },
                Ok(Some((next, factor))) => {
                    current = next;
                    amplitude.push(factor);
                },
            }
            remaining = position;
        }
        Ok(Some((current, amplitude)))
    }

    /// Destination of an operator string.
    pub fn apply_local(&self, state: u128, operator: &str, sites: &[usize]) -> (result: Result<
        Option<(u128, Vec<LocalFactor>)>,
    >)
        requires
            self.wf(),
        ensures
            boson::word_is(result, spinful_action(self@.sites, state, operator@, sites@)),
    {
        let buffer: SymbolBuffer = match operator_chars(operator, sites) {
            Ok(buffer) => buffer,
            Err(error) => {
                return Err(error);
            },
        };
        let text: Vec<char> = symbols::characters(operator);
        let place: usize = symbols::find_separator(&text, 0);
        let split: Option<usize> = if place < text.len() {
            Some(place)
        } else {
            None
        };
        proof {
            if operator@.contains('|') {
                let i = choose|i: int| 0 <= i < operator@.len() && operator@[i] == '|';
                assert(place < text@.len());
            } else if place < text@.len() {
                assert(operator@[place as int] == '|');
            }
        }
        self.apply_local_symbols(state, buffer.as_slice(), split, sites)
    }

    /// Whether known changes of both numbers keep the selection.
    fn keeps_changes(&self, up_change: Option<i32>, down_change: Option<i32>) -> (kept: bool)
        requires
            self.wf(),
        ensures
            kept == changes_kept(self@, change_view(up_change), change_view(down_change)),
    {
        match &self.particle_sectors {
            Some(list) => match (up_change, down_change) {
                (Some(up), Some(down)) => pairs_kept(list, self.sites, up, down),
                _ => false,
            },
            None => {
                let up_kept: bool = self.particles_up.is_none() || match up_change {
                    Some(change) => change == 0,
                    None => false,
                };
                let down_kept: bool = self.particles_down.is_none() || match down_change {
                    Some(change) => change == 0,
                    None => false,
                };
                up_kept && down_kept
            },
        }
    }
}

/// A signed change as a mathematical one.
pub open spec fn change_view(change: Option<i32>) -> Option<int> {
    match change {
        Some(value) => Some(value as int),
        None => None,
    }
}

/// Changes of both numbers by symbols on numbered orbitals.
fn count_flavor_changes(chain_sites: usize, symbols: &[char], sites: &[usize]) -> (result: Result<
    (Option<i32>, Option<i32>),
>)
    requires
        chain_sites <= 64,
        symbols@.len() == sites@.len(),
        symbols@.len() < i32::MAX,
    ensures
        match result {
            Ok(changes) => flavor_changes(chain_sites, symbols@, sites@, symbols@.len()) == Ok::<
                (Option<int>, Option<int>),
                QmbedError,
            >((change_view(changes.0), change_view(changes.1))),
            Err(error) => flavor_changes(chain_sites, symbols@, sites@, symbols@.len()) == Err::<
                (Option<int>, Option<int>),
                QmbedError,
            >(error),
        },
{
    let mut up: Option<i32> = Some(0);
    let mut down: Option<i32> = Some(0);
    let mut next: usize = 0;
    while next < symbols.len()
        invariant
            next <= symbols@.len(),
            chain_sites <= 64,
            symbols@.len() == sites@.len(),
            symbols@.len() < i32::MAX,
            up matches Some(change) ==> -next <= change <= next,
            down matches Some(change) ==> -next <= change <= next,
            flavor_changes(chain_sites, symbols@, sites@, next as nat) == Ok::<
                (Option<int>, Option<int>),
                QmbedError,
            >((change_view(up), change_view(down))),
        decreases symbols@.len() - next,
    {
        let symbol: char = symbols[next];
        let orbital: usize = sites[next];
        proof {
            lemma_flavor_error_stays(chain_sites, symbols@, sites@, (next + 1) as nat);
        }
        if orbital >= 2 * chain_sites {
            return Err(QmbedError::InvalidSite { site: orbital, sites: 2 * chain_sites });
        }
        let lower: bool = orbital >= chain_sites;
        let current: Option<i32> = if lower {
            down
        } else {
            up
        };
        let changed: Option<i32> = if symbol == '+' {
            match current {
                Some(change) => Some(change + 1),
                None => None,
            }
        } else if symbol == '-' {
            match current {
                Some(change) => Some(change - 1),
                None => None,
            }
        } else if symbol == 'x' || symbol == 'y' {
            None
        } else if symbol == 'I' || symbol == 'n' || symbol == 'z' {
            current
        } else {
            return Err(QmbedError::InvalidOperator(OperatorFault::Whole));
        };
        if lower {
            down = changed;
        } else {
            up = changed;
        }
        next += 1;
    }
    Ok((up, down))
}


/// Separators only shorten a string.
proof fn lemma_without_separators_length(text: Seq<char>)
    ensures
        symbols::without_separators(text).len() <= text.len(),
    decreases text.len(),
{
    if text.len() > 0 {
        lemma_without_separators_length(text.drop_last());
    }
}

/// A failure of a shorter walk is the failure of the whole walk.
proof fn lemma_flavor_error_stays(
    chain_sites: usize,
    symbols: Seq<char>,
    sites: Seq<usize>,
    count: nat,
)
    ensures
        count <= symbols.len() && flavor_changes(chain_sites, symbols, sites, count) is Err
            ==> flavor_changes(chain_sites, symbols, sites, symbols.len()) == flavor_changes(
            chain_sites,
            symbols,
            sites,
            count,
        ),
    decreases symbols.len() - count,
{
    if count < symbols.len() {
        lemma_flavor_error_stays(chain_sites, symbols, sites, count + 1);
    }
}

impl Basis for SpinfulFermionBasis1D {
    type State = u128;

    type Phase = Turn;

    open spec fn wf(&self) -> bool {
        self@.wf() && self.tables_agree()
    }

    open spec fn spec_states(&self) -> Seq<u128> {
        self@.states
    }

    open spec fn acts_on(&self, state: u128) -> bool {
        true
    }

    open spec fn spec_transitions(
        &self,
        state: u128,
        operator: Seq<char>,
        sites: Seq<usize>,
    ) -> core::result::Result<Seq<(u128, Seq<Factor<Turn>>)>, QmbedError> {
        boson::word_transitions(spinful_action(self@.sites, state, operator, sites))
    }

    open spec fn spec_preserves(&self, operator: Seq<char>) -> core::result::Result<
        bool,
        QmbedError,
    > {
        spinful_preserves(self@, operator)
    }

    open spec fn spec_preserves_on_sites(
        &self,
        operator: Seq<char>,
        sites: Seq<usize>,
    ) -> core::result::Result<bool, QmbedError> {
        spinful_preserves_on_sites(self@, operator, sites)
    }

    open spec fn faithful(&self) -> bool {
        true
    }

    proof fn states_distinct(&self) {
    }

    proof fn acts_on_states(&self, index: int) {
    }

    fn len(&self) -> (length: usize) {
        self.states.len()
    }

    fn state(&self, index: usize) -> (result: Result<u128>) {
        if index < self.states.len() {
            Ok(self.states[index])
        } else {
            Err(QmbedError::StateNotInBasis)
        }
    }

    fn index(&self, state: u128) -> (result: Result<usize>) {
        let ghost n = self.sites as nat;
        if self.sites < 64 {
            proof {
                bits::lemma_shl_one((2 * self.sites) as u32);
            }
            if state >= 1u128 << (2 * self.sites) {
                return Err(QmbedError::StateNotInBasis);
            }
        }
        proof {
            bits::lemma_pow2_128();
            lemma_key_round_trip(state, n);
        }
        let key: u128 = state_of_key(state, self.sites);
        match ordered::find(&self.keys, key) {
            Some(index) => {
                assert(keys_match(self.keys@[index as int], self.states@[index as int], n));
                Ok(index)
            },
            None => {
                proof {
                    if self.states@.contains(state) {
                        let i = choose|i: int| 0 <= i < self.states@.len() && self.states@[i] == state;
                        assert(keys_match(self.keys@[i], self.states@[i], n));
                        assert(self.keys@[i] == key);
                    }
                }
                Err(QmbedError::StateNotInBasis)
            },
        }
    }

    fn apply_local_transitions(&self, state: u128, operator: &str, sites: &[usize]) -> (result:
        Result<Transitions<u128, Turn>>) {
        let word = self.apply_local(state, operator, sites);
        boson::listed_word(
            word,
            Ghost(spinful_action(self@.sites, state, operator@, sites@)),
        )
    }

    /// Without a separator the sites number all orbitals, so each symbol counts for the flavor
    /// of its orbital.
    fn operator_preserves_particle_sector_on_sites(
        &self,
        operator: &str,
        sites: &[usize],
    ) -> (result: Result<bool>) {
        let text: Vec<char> = symbols::characters(operator);
        let place: usize = symbols::find_separator(&text, 0);
        proof {
            if operator@.contains('|') {
                let i = choose|i: int| 0 <= i < operator@.len() && operator@[i] == '|';
                assert(place < text@.len());
            } else if place < text@.len() {
                assert(operator@[place as int] == '|');
            }
        }
        if place < text.len() {
            return self.operator_preserves_particle_sector(operator);
        }
        let buffer: SymbolBuffer = match operator_chars(operator, sites) {
            Ok(buffer) => buffer,
            Err(error) => {
                return Err(error);
            },
        };
        proof {
            lemma_without_separators_length(operator@);
        }
        match count_flavor_changes(self.sites, buffer.as_slice(), sites) {
            Ok((up, down)) => Ok(self.keeps_changes(up, down)),
            Err(error) => Err(error),
        }
    }

    fn operator_preserves_particle_sector(&self, operator: &str) -> (result: Result<bool>) {
        let text: Vec<char> = symbols::characters(operator);
        let place: usize = symbols::find_separator(&text, 0);
        let ghost up = operator@.take(place as int);
        let ghost down = if place < operator@.len() {
            operator@.skip(place + 1)
        } else {
            Seq::empty()
        };
        let start: usize = if place < text.len() {
            place + 1
        } else {
            place
        };
        let again: usize = symbols::find_separator(&text, start);
        proof {
            assert(text@.subrange(0, place as int) =~= up);
            assert(text@.subrange(start as int, text@.len() as int) =~= down);
            if down.contains('|') {
                let i = choose|i: int| 0 <= i < down.len() && down[i] == '|';
                assert(text@[start + i] == '|');
                assert(again < text@.len());
            } else if again < text@.len() {
                assert(down[again - start] == '|');
            }
        }
        if again < text.len() {
            return Err(QmbedError::InvalidOperator(OperatorFault::Whole));
        }
        let nothing: bool = self.particles_up.is_none() && self.particle_sectors.is_none()
            && self.particles_down.is_none();
        let up_change: i32 = match symbols::stretch_number_change(&text, 0, place) {
            Err(error) => {
                return Err(error);
            },
            Ok(None) => {
                return Ok(nothing);
            },
            Ok(Some(change)) => change,
        };
        let down_change: i32 = match symbols::stretch_number_change(&text, start, text.len()) {
            Err(error) => {
                return Err(error);
            },
            Ok(None) => {
                return Ok(nothing);
            },
            Ok(Some(change)) => change,
        };
        Ok(self.keeps_changes(Some(up_change), Some(down_change)))
    }
}

} // verus!

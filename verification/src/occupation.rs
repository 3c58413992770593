//! Site-local constraints on packed binary species.

use vstd::arithmetic::mul::*;
use vstd::arithmetic::power2::*;
use vstd::prelude::*;

use crate::bits;
use crate::error::{QmbedError, Reason, Result};
use crate::ordered;

verus! {

/// Site-local constraint for packed binary species.
///
/// A local state is encoded as a bit mask over species: bit `s` is the
/// occupation of species `s` at the site. This represents exclusions such as
/// no double occupancy without a model-specific predicate.
#[derive(Debug)]
pub struct LocalOccupationConstraint {
    species: usize,
    allowed_local_states: Vec<usize>,
}

/// Occupations of the first `species` species at `site`, as a mask.
pub open spec fn local_mask(state: u128, sites: nat, species: nat, site: nat) -> nat
    decreases species,
{
    if species == 0 {
        0
    } else {
        let last = (species - 1) as nat;
        local_mask(state, sites, last, site) + if bits::bit_at(
            state as nat,
            last * sites + site,
        ) {
            pow2(last)
        } else {
            0
        }
    }
}

/// Whether the mask at every site is one of the allowed ones.
pub open spec fn masks_allowed(
    state: u128,
    sites: nat,
    species: nat,
    allowed: Seq<usize>,
) -> bool {
    forall|site: nat|
        site < sites ==> allowed.contains(
            #[trigger] local_mask(state, sites, species, site) as usize,
        )
}

proof fn lemma_local_mask_bound(state: u128, sites: nat, species: nat, site: nat)
    ensures
        local_mask(state, sites, species, site) < pow2(species),
    decreases species,
{
    lemma2_to64();
    if species > 0 {
        lemma_pow2_unfold(species);
        lemma_local_mask_bound(state, sites, (species - 1) as nat, site);
    }
}

/// Whether some number of the list reaches the bound.
pub open spec fn reaches(list: Seq<usize>, bound: nat) -> bool {
    exists|i: int| 0 <= i < list.len() && #[trigger] list[i] >= bound
}

/// The refusal of a constraint, if it is refused.
pub open spec fn constraint_error(species: usize, allowed: Seq<usize>) -> Option<QmbedError> {
    if pow2(species as nat) > usize::MAX {
        Some(
            QmbedError::UnsupportedBackend(Reason::Text("the local binary-species dimension exceeds usize")),
        )
    } else if species == 0 {
        Some(
            QmbedError::InvalidSector(Reason::Text("a local occupation constraint needs at least one species")),
        )
    } else if allowed.len() == 0 {
        Some(
            QmbedError::InvalidSector(
                Reason::Text("a local occupation constraint must allow at least one state"),
            ),
        )
    } else if reaches(allowed, pow2(species as nat)) {
        Some(
            QmbedError::InvalidSector(
                Reason::Text("an allowed local occupation is outside the binary-species space"),
            ),
        )
    } else {
        None
    }
}

impl LocalOccupationConstraint {
    pub closed spec fn spec_species(&self) -> usize {
        self.species
    }

    pub closed spec fn spec_allowed(&self) -> Seq<usize> {
        self.allowed_local_states@
    }

    /// The allowed masks are distinct, ascending and within the local space.
    pub open spec fn wf(&self) -> bool {
        &&& self.spec_species() > 0
        &&& pow2(self.spec_species() as nat) <= usize::MAX
        &&& self.spec_allowed().len() > 0
        &&& ordered::strictly_sorted(self.spec_allowed())
        &&& forall|i: int|
            0 <= i < self.spec_allowed().len() ==> #[trigger] self.spec_allowed()[i] < pow2(
                self.spec_species() as nat,
            )
    }

    /// A constraint that allows exactly the listed masks.
    pub fn new(species: usize, allowed_local_states: Vec<usize>) -> (result: Result<Self>)
        ensures
            match result {
                Ok(constraint) => {
                    &&& constraint_error(species, allowed_local_states@) is None
                    &&& constraint.wf()
                    &&& constraint.spec_species() == species
                    &&& forall|mask: usize| #[trigger]
                        constraint.spec_allowed().contains(mask) <==> allowed_local_states@.contains(
                            mask,
                        )
                },
                Err(error) => constraint_error(species, allowed_local_states@) == Some(error),
            },
    {
        let local_dimension: usize = match bits::checked_pow2(species) {
            Some(dimension) => dimension,
            None => {
                return Err(
                    QmbedError::UnsupportedBackend(
                        Reason::Text("the local binary-species dimension exceeds usize"),
                    ),
                );
            },
        };
        if species == 0 {
            return Err(
                QmbedError::InvalidSector(
                    Reason::Text("a local occupation constraint needs at least one species"),
                ),
            );
        }
        if allowed_local_states.len() == 0 {
            return Err(
                QmbedError::InvalidSector(
                    Reason::Text("a local occupation constraint must allow at least one state"),
                ),
            );
        }
        let mut next: usize = 0;
        while next < allowed_local_states.len()
            invariant
                next <= allowed_local_states@.len(),
                local_dimension == pow2(species as nat),
                species > 0,
                allowed_local_states@.len() > 0,
                forall|i: int| 0 <= i < next ==> #[trigger] allowed_local_states@[i] < local_dimension,
            decreases allowed_local_states@.len() - next,
        {
            if allowed_local_states[next] >= local_dimension {
                assert(reaches(allowed_local_states@, pow2(species as nat)));
                return Err(
                    QmbedError::InvalidSector(
                        Reason::Text("an allowed local occupation is outside the binary-species space"),
                    ),
                );
            }
            next += 1;
        }
        let allowed: Vec<usize> = ordered::sort_dedup(&allowed_local_states);
        proof {
            assert(allowed_local_states@.contains(allowed_local_states@[0]));
            assert(allowed@.contains(allowed_local_states@[0]));
            assert forall|i: int| 0 <= i < allowed@.len() implies #[trigger] allowed@[i]
                < local_dimension by {
                assert(allowed@.contains(allowed@[i]));
                let p = choose|p: int|
                    0 <= p < allowed_local_states@.len() && allowed_local_states@[p] == allowed@[i];
            }
        }
        Ok(LocalOccupationConstraint { species, allowed_local_states: allowed })
    }

    /// Number of binary species.
    pub fn species(&self) -> (species: usize)
        ensures
            species == self.spec_species(),
    {
        self.species
    }

    /// The allowed masks, ascending.
    pub fn allowed_local_states(&self) -> (allowed: &Vec<usize>)
        ensures
            allowed@ == self.spec_allowed(),
    {
        &self.allowed_local_states
    }

    /// Whether the mask of a packed state is allowed at every site.
    ///
    /// Species `s` at site `i` is the digit `s * sites + i` of the state.
    pub fn accepts_packed_state(&self, state: u128, sites: usize) -> (result: Result<bool>)
        requires
            self.wf(),
        ensures
            match result {
                Ok(accepted) => {
                    &&& self.spec_species() * sites <= 128
                    &&& accepted == masks_allowed(
                        state,
                        sites as nat,
                        self.spec_species() as nat,
                        self.spec_allowed(),
                    )
                },
                Err(error) => {
                    &&& self.spec_species() * sites > usize::MAX ==> error
                        == QmbedError::UnsupportedBackend(Reason::Text("binary-species orbital count overflow"))
                    &&& self.spec_species() * sites <= usize::MAX ==> {
                        &&& self.spec_species() * sites > 128
                        &&& error == QmbedError::UnsupportedBackend(
                            Reason::Text("the packed local-constraint backend supports at most 128 orbitals"),
                        )
                    }
                },
            },
    {
        let orbitals: usize = match self.species.checked_mul(sites) {
            Some(orbitals) => orbitals,
            None => {
                return Err(
                    QmbedError::UnsupportedBackend(Reason::Text("binary-species orbital count overflow")),
                );
            },
        };
        if orbitals > 128 {
            return Err(
                QmbedError::UnsupportedBackend(
                    Reason::Text("the packed local-constraint backend supports at most 128 orbitals"),
                ),
            );
        }
        let ghost n = sites as nat;
        let ghost k = self.species as nat;
        let mut site: usize = 0;
        while site < sites
            invariant
                site <= sites,
                self.wf(),
                n == sites,
                k == self.species,
                self.species * sites <= 128,
                forall|s: nat|
                    s < site ==> self.spec_allowed().contains(
                        #[trigger] local_mask(state, n, k, s) as usize,
                    ),
            decreases sites - site,
        {
            let mut local_state: usize = 0;
            let mut weight: usize = 1;
            let mut species: usize = 0;
            proof {
                lemma2_to64();
            }
            while species < self.species
                invariant
                    species <= self.species,
                    site < sites,
                    self.wf(),
                    n == sites,
                    k == self.species,
                    self.species * sites <= 128,
                    species < self.species ==> weight == pow2(species as nat),
                    local_state == local_mask(state, n, species as nat, site as nat),
                decreases self.species - species,
            {
                proof {
                    assert(species * sites + site < 128) by (nonlinear_arith)
                        requires
                            species < self.species,
                            site < sites,
                            self.species * sites <= 128,
                    ;
                    lemma_local_mask_bound(state, n, (species + 1) as nat, site as nat);
                    if species + 1 < self.species {
                        lemma_pow2_strictly_increases((species + 1) as nat, k);
                    }
                    lemma_pow2_unfold((species + 1) as nat);
                    lemma_mul_nonnegative(species as int, sites as int);
                }
                if bits::test_bit(state, species * sites + site) {
                    local_state = local_state + weight;
                }
                species += 1;
                if species < self.species {
                    weight = weight * 2;
                }
            }
            match ordered::find(&self.allowed_local_states, local_state) {
                Some(place) => {
                    assert(self.spec_allowed()[place as int] == local_state);
                },
                None => {
                    assert(!self.spec_allowed().contains(
                        local_mask(state, n, k, site as nat) as usize,
                    ));
                    return Ok(false);
                },
            }
            site += 1;
        }
        Ok(true)
    }
}

} // verus!

//! Matter coupled to one photon mode.

use vstd::arithmetic::div_mod::*;
use vstd::arithmetic::mul::*;
use vstd::arithmetic::power2::*;
use vstd::prelude::*;

use crate::basis;
use crate::basis::{Basis, EitherPhase, Factor, Pair, Transitions};
use crate::bits::checked_pow2;
use crate::boson::BosonBasis1D;
use crate::combinatorics;
use crate::combinatorics::checked_binomial;
use crate::error::{QmbedError, Reason, Result};
use crate::ordered::{Coded, Ranked};
use crate::table::StateTable;
use crate::tensor::TensorBasis;
use crate::wide_spin;
use crate::wide_spin::operator_keeps_number;

verus! {

impl<A: Coded> Ranked for Pair<A, u128> {
    open spec fn rank(self) -> int {
        self.left.rank() * (u128::MAX + 1) + self.right
    }

    fn at_most(&self, other: &Self) -> (answer: bool) {
        proof {
            let p = u128::MAX + 1;
            let a = self.left.rank();
            let b = other.left.rank();
            let x = self.right as int;
            let y = other.right as int;
            assert(a < b ==> a * p + x < b * p + y) by (nonlinear_arith)
                requires
                    0 <= x < p,
                    0 <= y < p,
            ;
            assert(b < a ==> b * p + y < a * p + x) by (nonlinear_arith)
                requires
                    0 <= x < p,
                    0 <= y < p,
            ;
        }
        if self.left.at_most(&other.left) {
            if other.left.at_most(&self.left) {
                self.right <= other.right
            } else {
                true
            }
        } else {
            false
        }
    }
}

impl<A: Coded> Coded for Pair<A, u128> {
    proof fn rank_identifies(left: Self, right: Self) {
        let p = u128::MAX + 1;
        lemma_fundamental_div_mod_converse(left.rank(), p, left.left.rank(), left.right as int);
        lemma_fundamental_div_mod_converse(right.rank(), p, right.left.rank(), right.right as int);
        A::rank_identifies(left.left, right.left);
    }
}

/// Whether a product state has the requested number of excitations, if one is requested.
pub open spec fn admitted(total: Option<usize>, level: usize, photons: u128) -> bool {
    match total {
        Some(number) => level + photons == number,
        None => true,
    }
}

/// The product states that are kept, in order.
pub open spec fn kept_states<S>(
    states: Seq<Pair<S, u128>>,
    total: Option<usize>,
    levels: Seq<usize>,
) -> Seq<Pair<S, u128>>
    decreases states.len(),
{
    if states.len() == 0 {
        Seq::empty()
    } else {
        let before = kept_states(states.drop_last(), total, levels);
        let last = states.last();
        if admitted(total, levels[states.len() - 1], last.right) {
            before.push(last)
        } else {
            before
        }
    }
}

/// Kept states are product states, and differ where those do.
pub proof fn lemma_kept<S>(states: Seq<Pair<S, u128>>, total: Option<usize>, levels: Seq<usize>)
    ensures
        forall|i: int|
            0 <= i < kept_states(states, total, levels).len() ==> states.contains(
                #[trigger] kept_states(states, total, levels)[i],
            ),
        states.no_duplicates() ==> kept_states(states, total, levels).no_duplicates(),
    decreases states.len(),
{
    if states.len() > 0 {
        let rest = states.drop_last();
        let before = kept_states(rest, total, levels);
        let whole = kept_states(states, total, levels);
        lemma_kept(rest, total, levels);
        assert forall|i: int| 0 <= i < whole.len() implies states.contains(
            #[trigger] whole[i],
        ) by {
            if i < before.len() {
                assert(rest.contains(before[i]));
                let j = rest.index_of(before[i]);
                assert(states[j] == whole[i]);
            } else {
                assert(states[states.len() - 1] == whole[i]);
            }
        }
        if states.no_duplicates() {
            assert forall|i: int, j: int|
                0 <= i < rest.len() && 0 <= j < rest.len() && i != j implies rest[i]
                != rest[j] by {
                assert(states[i] != states[j]);
            }
            assert forall|i: int, j: int|
                0 <= i < whole.len() && 0 <= j < whole.len() && i != j implies whole[i]
                != whole[j] by {
                if i < before.len() && j < before.len() {
                    assert(before[i] != before[j]);
                } else if i < before.len() {
                    assert(rest.contains(before[i]));
                    let k = rest.index_of(before[i]);
                    assert(states[k] != states[states.len() - 1]);
                } else {
                    assert(rest.contains(before[j]));
                    let k = rest.index_of(before[j]);
                    assert(states[k] != states[states.len() - 1]);
                }
            }
        }
    }
}

/// Destinations that stay among the given states.
pub open spec fn staying<S, P>(transitions: Seq<(S, Seq<Factor<P>>)>, states: Seq<S>) -> Seq<
    (S, Seq<Factor<P>>),
>
    decreases transitions.len(),
{
    if transitions.len() == 0 {
        Seq::empty()
    } else {
        let before = staying(transitions.drop_last(), states);
        if states.contains(transitions.last().0) {
            before.push(transitions.last())
        } else {
            before
        }
    }
}

/// Matter basis tensored with one truncated photon mode, optionally at fixed
/// total excitation number.
pub struct PhotonBasis<Matter: Basis> where Matter::State: Coded {
    tensor: TensorBasis<Matter, BosonBasis1D>,
    states: Vec<Pair<Matter::State, u128>>,
    indices: StateTable<Pair<Matter::State, u128>, usize>,
    total_excitations: Option<usize>,
}

/// Product states of matter and photon.
pub open spec fn product_states<Matter: Basis>(matter: Matter, photon: BosonBasis1D) -> Seq<
    Pair<Matter::State, u128>,
> {
    crate::tensor::paired(matter.spec_states(), photon.spec_states())
}

/// Whether levels are what a function gives for the matter parts of the states.
pub open spec fn levels_fit<S, F: Fn(S) -> usize>(
    excitations: F,
    states: Seq<Pair<S, u128>>,
    levels: Seq<usize>,
) -> bool {
    &&& levels.len() == states.len()
    &&& forall|i: int|
        0 <= i < levels.len() ==> call_ensures(
            excitations,
            (states[i].left,),
            #[trigger] levels[i],
        )
}

impl<Matter: Basis> PhotonBasis<Matter> where Matter::State: Coded {
    pub closed spec fn spec_tensor(&self) -> TensorBasis<Matter, BosonBasis1D> {
        self.tensor
    }

    pub closed spec fn spec_rows(&self) -> Seq<Pair<Matter::State, u128>> {
        self.states@
    }

    pub closed spec fn spec_total(&self) -> Option<usize> {
        self.total_excitations
    }

    /// Whether the rows are those that some levels keep.
    pub open spec fn keeps(&self, levels: Seq<usize>) -> bool {
        self.spec_rows() == kept_states(
            self.spec_tensor().spec_states(),
            self.spec_total(),
            levels,
        )
    }

    /// Parts that go together.
    pub closed spec fn valid(&self) -> bool {
        &&& self.tensor.wf()
        &&& self.indices.wf()
        &&& forall|state: Pair<Matter::State, u128>|
            match #[trigger] self.indices.entry(state) {
                Some(index) => index < self.states@.len() && self.states@[index as int] == state,
                None => !self.states@.contains(state),
            }
        &&& exists|levels: Seq<usize>| #[trigger] self.keeps(levels)
    }

    /// What a photon basis is built from, or why it is not.
    pub open spec fn built(
        matter: Matter,
        photon: BosonBasis1D,
        total: Option<usize>,
        levels: Seq<usize>,
        result: Result<Self>,
    ) -> bool {
        let states = product_states(matter, photon);
        match result {
            Ok(product) => {
                &&& photon@.sites == 1
                &&& kept_states(states, total, levels).len() > 0
                &&& product.valid()
                &&& product.spec_tensor().spec_left() == matter
                &&& product.spec_tensor().spec_right() == photon
                &&& product.spec_total() == total
                &&& product.spec_rows() == kept_states(states, total, levels)
            },
            Err(error) => if photon@.sites != 1 {
                error == QmbedError::InvalidSector(Reason::Text("PhotonBasis requires a one-mode boson basis"))
            } else if matter.spec_states().len() * photon.spec_states().len() > usize::MAX {
                error == QmbedError::UnsupportedBackend(Reason::Text("tensor-basis size overflow"))
            } else {
                &&& kept_states(states, total, levels).len() == 0
                &&& error == QmbedError::InvalidSector(Reason::Text("the requested photon sector is empty"))
            },
        }
    }

    /// All product states.
    pub fn new(matter: Matter, photon: BosonBasis1D) -> (result: Result<Self>)
        requires
            matter.wf(),
            photon.wf(),
        ensures
            Self::built(matter, photon, None, Seq::empty(), result),
    {
        match Self::product(matter, photon) {
            Ok(tensor) => {
                let levels: Vec<usize> = Vec::new();
                assert(levels@ =~= Seq::empty());
                Self::select(tensor, None, &levels)
            },
            Err(error) => Err(error),
        }
    }

    /// Product states with a total number of excitations; a function gives those of
    /// the matter part.
    pub fn fixed_total_excitations<F: Fn(Matter::State) -> usize>(
        matter: Matter,
        photon: BosonBasis1D,
        total: usize,
        matter_excitations: F,
    ) -> (result: Result<Self>)
        requires
            matter.wf(),
            photon.wf(),
            forall|state: Matter::State| #[trigger] call_requires(matter_excitations, (state,)),
        ensures
            photon@.sites != 1 || matter.spec_states().len() * photon.spec_states().len()
                > usize::MAX ==> Self::built(matter, photon, Some(total), Seq::empty(), result),
            photon@.sites == 1 && matter.spec_states().len() * photon.spec_states().len()
                <= usize::MAX ==> exists|levels: Seq<usize>|
                {
                    &&& #[trigger] levels_fit(
                        matter_excitations,
                        product_states(matter, photon),
                        levels,
                    )
                    &&& Self::built(matter, photon, Some(total), levels, result)
                },
    {
        let tensor: TensorBasis<Matter, BosonBasis1D> = match Self::product(matter, photon) {
            Ok(tensor) => tensor,
            Err(error) => {
                return Err(error);
            },
        };
        let ghost states = product_states(matter, photon);
        let length: usize = tensor.len();
        let mut levels: Vec<usize> = Vec::new();
        let mut next: usize = 0;
        while next < length
            invariant
                next <= length,
                tensor.wf(),
                states == tensor.spec_states(),
                length == states.len(),
                forall|state: Matter::State| #[trigger]
                    call_requires(matter_excitations, (state,)),
                levels@.len() == next,
                forall|i: int|
                    0 <= i < next ==> call_ensures(
                        matter_excitations,
                        (states[i].left,),
                        #[trigger] levels@[i],
                    ),
            decreases length - next,
        {
            match tensor.state(next) {
                Ok(state) => {
                    levels.push(matter_excitations(state.left));
                },
                Err(error) => {
                    return Err(error);
                },
            }
            next += 1;
        }
        assert(levels_fit(matter_excitations, states, levels@));
        Self::select(tensor, Some(total), &levels)
    }

    fn product(matter: Matter, photon: BosonBasis1D) -> (result: Result<
        TensorBasis<Matter, BosonBasis1D>,
    >)
        requires
            matter.wf(),
            photon.wf(),
        ensures
            match result {
                Ok(tensor) => {
                    &&& photon@.sites == 1
                    &&& matter.spec_states().len() * photon.spec_states().len() <= usize::MAX
                    &&& tensor.wf()
                    &&& tensor.spec_left() == matter
                    &&& tensor.spec_right() == photon
                },
                Err(error) => if photon@.sites != 1 {
                    error == QmbedError::InvalidSector(
                        Reason::Text("PhotonBasis requires a one-mode boson basis"),
                    )
                } else {
                    &&& matter.spec_states().len() * photon.spec_states().len() > usize::MAX
                    &&& error == QmbedError::UnsupportedBackend(Reason::Text("tensor-basis size overflow"))
                },
            },
    {
        if photon.sites() != 1 {
            return Err(QmbedError::InvalidSector(Reason::Text("PhotonBasis requires a one-mode boson basis")));
        }
        TensorBasis::new(matter, photon)
    }

    fn select(
        tensor: TensorBasis<Matter, BosonBasis1D>,
        total: Option<usize>,
        levels: &Vec<usize>,
    ) -> (result: Result<Self>)
        requires
            tensor.wf(),
            tensor.spec_right()@.sites == 1,
            total is Some ==> levels@.len() == tensor.spec_states().len(),
        ensures
            Self::built(tensor.spec_left(), tensor.spec_right(), total, levels@, result),
    {
        let ghost all = tensor.spec_states();
        let length: usize = tensor.len();
        let mut states: Vec<Pair<Matter::State, u128>> = Vec::new();
        let mut indices: StateTable<Pair<Matter::State, u128>, usize> = StateTable::new();
        let mut next: usize = 0;
        assert(all.take(0) =~= Seq::empty());
        while next < length
            invariant
                next <= length,
                tensor.wf(),
                all == tensor.spec_states(),
                length == all.len(),
                total is Some ==> levels@.len() == all.len(),
                states@ == kept_states(all.take(next as int), total, levels@),
                indices.wf(),
                forall|state: Pair<Matter::State, u128>|
                    match #[trigger] indices.entry(state) {
                        Some(index) => index < states@.len() && states@[index as int] == state,
                        None => !states@.contains(state),
                    },
            decreases length - next,
        {
            let state: Pair<Matter::State, u128> = match tensor.state(next) {
                Ok(state) => state,
                Err(error) => {
                    return Err(error);
                },
            };
            let keep: bool = match total {
                Some(number) => {
                    let level: usize = levels[next];
                    level <= number && state.right == (number - level) as u128
                },
                None => true,
            };
            proof {
                assert(all.take(next + 1).drop_last() =~= all.take(next as int));
            }
            if keep {
                let ghost before = states@;
                let place: usize = states.len();
                states.push(state);
                indices.insert(state, place);
                proof {
                    assert forall|other: Pair<Matter::State, u128>|
                        match #[trigger] indices.entry(other) {
                            Some(index) => index < states@.len() && states@[index as int]
                                == other,
                            None => !states@.contains(other),
                        } by {
                        if states@.contains(other) && other != state {
                            let i = states@.index_of(other);
                            assert(before[i] == other);
                        }
                    }
                }
            }
            next += 1;
        }
        assert(all.take(next as int) =~= all);
        if states.len() == 0 {
            return Err(QmbedError::InvalidSector(Reason::Text("the requested photon sector is empty")));
        }
        let product = PhotonBasis { tensor, states, indices, total_excitations: total };
        assert(product.keeps(levels@));
        Ok(product)
    }

    /// Total number of excitations, where one is fixed.
    pub fn total_excitations(&self) -> (total: Option<usize>)
        ensures
            total == self.spec_total(),
    {
        self.total_excitations
    }

    /// The matter basis.
    pub fn matter(&self) -> (matter: &Matter)
        ensures
            *matter == self.spec_tensor().spec_left(),
    {
        self.tensor.left()
    }

    /// The photon mode.
    pub fn photon(&self) -> (photon: &BosonBasis1D)
        ensures
            *photon == self.spec_tensor().spec_right(),
    {
        self.tensor.right()
    }

    /// The only destination of a local operator string.
    pub fn apply_local(
        &self,
        state: Pair<Matter::State, u128>,
        operator: &str,
        sites: &[usize],
    ) -> (result: Result<
        Option<
            (
                Pair<Matter::State, u128>,
                Vec<Factor<EitherPhase<Matter::Phase, <BosonBasis1D as Basis>::Phase>>>,
            ),
        >,
    >)
        requires
            self.valid(),
            self.acts_on(state),
        ensures
            basis::transition_is(
                result,
                basis::single_transition(
                    self.spec_transitions(state, operator@, sites@),
                    QmbedError::UnsupportedBackend(
                        Reason::Text("this photon-basis action branches; use apply_local_transitions"),
                    ),
                ),
            ),
    {
        match self.apply_local_transitions(state, operator, sites) {
            Ok(transitions) => basis::only_transition(
                transitions,
                QmbedError::UnsupportedBackend(
                    Reason::Text("this photon-basis action branches; use apply_local_transitions"),
                ),
            ),
            Err(error) => Err(error),
        }
    }
}

impl<Matter: Basis> Basis for PhotonBasis<Matter> where Matter::State: Coded {
    type State = Pair<Matter::State, u128>;

    type Phase = EitherPhase<Matter::Phase, <BosonBasis1D as Basis>::Phase>;

    open spec fn wf(&self) -> bool {
        self.valid()
    }

    open spec fn spec_states(&self) -> Seq<Pair<Matter::State, u128>> {
        self.spec_rows()
    }

    open spec fn acts_on(&self, state: Pair<Matter::State, u128>) -> bool {
        self.spec_tensor().acts_on(state)
    }

    open spec fn spec_transitions(
        &self,
        state: Pair<Matter::State, u128>,
        operator: Seq<char>,
        sites: Seq<usize>,
    ) -> core::result::Result<
        Seq<
            (
                Pair<Matter::State, u128>,
                Seq<Factor<EitherPhase<Matter::Phase, <BosonBasis1D as Basis>::Phase>>>,
            ),
        >,
        QmbedError,
    > {
        match self.spec_tensor().spec_transitions(state, operator, sites) {
            Ok(transitions) => Ok(staying(transitions, self.spec_rows())),
            Err(error) => Err(error),
        }
    }

    open spec fn spec_preserves(&self, operator: Seq<char>) -> core::result::Result<
        bool,
        QmbedError,
    > {
        wide_spin::keeps_number(self.spec_total() is Some, operator)
    }

    open spec fn spec_preserves_on_sites(
        &self,
        operator: Seq<char>,
        sites: Seq<usize>,
    ) -> core::result::Result<bool, QmbedError> {
        self.spec_preserves(operator)
    }

    open spec fn faithful(&self) -> bool {
        self.spec_tensor().faithful()
    }

    proof fn states_distinct(&self) {
        let levels = choose|levels: Seq<usize>| #[trigger] self.keeps(levels);
        self.tensor.states_distinct();
        lemma_kept(self.tensor.spec_states(), self.total_excitations, levels);
    }

    proof fn acts_on_states(&self, index: int) {
        let levels = choose|levels: Seq<usize>| #[trigger] self.keeps(levels);
        let all = self.tensor.spec_states();
        lemma_kept(all, self.total_excitations, levels);
        let state = self.states@[index];
        assert(all.contains(state));
        self.tensor.acts_on_states(all.index_of(state));
    }

    fn len(&self) -> (length: usize) {
        self.states.len()
    }

    fn state(&self, index: usize) -> (result: Result<Pair<Matter::State, u128>>) {
        if index < self.states.len() {
            Ok(self.states[index])
        } else {
            Err(QmbedError::StateNotInBasis)
        }
    }

    fn index(&self, state: Pair<Matter::State, u128>) -> (result: Result<usize>) {
        match self.indices.get(state) {
            Some(index) => Ok(index),
            None => Err(QmbedError::StateNotInBasis),
        }
    }

    fn apply_local_transitions(
        &self,
        state: Pair<Matter::State, u128>,
        operator: &str,
        sites: &[usize],
    ) -> (result: Result<
        Transitions<
            Pair<Matter::State, u128>,
            EitherPhase<Matter::Phase, <BosonBasis1D as Basis>::Phase>,
        >,
    >) {
        let all = match self.tensor.apply_local_transitions(state, operator, sites) {
            Ok(all) => all,
            Err(error) => {
                return Err(error);
            },
        };
        let ghost list = basis::transitions_view(all@);
        let mut kept: Transitions<
            Pair<Matter::State, u128>,
            EitherPhase<Matter::Phase, <BosonBasis1D as Basis>::Phase>,
        > = Vec::new();
        let mut next: usize = 0;
        assert(list.take(0) =~= Seq::empty());
        assert(basis::transitions_view(kept@) =~= Seq::empty());
        while next < all.len()
            invariant
                next <= all@.len(),
                self.valid(),
                list == basis::transitions_view(all@),
                basis::transitions_view(kept@) == staying(
                    list.take(next as int),
                    self.spec_rows(),
                ),
            decreases all@.len() - next,
        {
            let ghost before = kept@;
            proof {
                assert(list.take(next + 1).drop_last() =~= list.take(next as int));
                assert(list[next as int] == (all@[next as int].0, all@[next as int].1@));
            }
            let target: Pair<Matter::State, u128> = all[next].0;
            if self.indices.get(target).is_some() {
                let amplitude = basis::copy_factors(&all[next].1);
                kept.push((target, amplitude));
                proof {
                    assert(basis::transitions_view(kept@) =~= basis::transitions_view(before).push(
                        (target, amplitude@),
                    ));
                }
            }
            next += 1;
        }
        assert(list.take(next as int) =~= list);
        Ok(kept)
    }

    fn operator_preserves_particle_sector_on_sites(
        &self,
        operator: &str,
        sites: &[usize],
    ) -> (result: Result<bool>) {
        self.operator_preserves_particle_sector(operator)
    }

    fn operator_preserves_particle_sector(&self, operator: &str) -> (result: Result<bool>) {
        operator_keeps_number(self.total_excitations.is_some(), operator)
    }
}

/// Ways to choose at least `from` and fewer than `to` of the sites.
pub open spec fn choices_between(sites: nat, from: nat, to: nat) -> nat
    decreases to,
{
    if to <= from {
        0
    } else {
        choices_between(sites, from, (to - 1) as nat) + combinatorics::combinations(
            sites,
            (to - 1) as nat,
        )
    }
}

/// Least number of matter excitations that a photon cutoff leaves.
pub open spec fn least_matter(total: usize, cutoff: Option<usize>) -> nat {
    match cutoff {
        Some(most) => if total > most {
            (total - most) as nat
        } else {
            0
        },
        None => 0,
    }
}

/// Greatest number of matter excitations.
pub open spec fn most_matter(sites: usize, total: usize) -> nat {
    if sites < total {
        sites as nat
    } else {
        total as nat
    }
}

proof fn lemma_choices_grow(sites: nat, from: nat, to: nat, later: nat)
    requires
        to <= later,
    ensures
        choices_between(sites, from, to) <= choices_between(sites, from, later),
    decreases later,
{
    if to < later {
        lemma_choices_grow(sites, from, to, (later - 1) as nat);
    }
}

/// Dimension of a spin-half chain plus one photon mode at fixed excitation.
pub fn photon_hspace_dim(
    sites: usize,
    total_excitations: Option<usize>,
    photon_cutoff: Option<usize>,
) -> (result: Result<usize>)
    ensures
        match (total_excitations, photon_cutoff) {
            (None, Some(cutoff)) => {
                let modes = (cutoff + 1) as nat;
                match result {
                    Ok(dimension) => dimension == pow2(sites as nat) * modes,
                    Err(error) => {
                        &&& pow2(sites as nat) * modes > usize::MAX
                        &&& error == QmbedError::UnsupportedBackend(Reason::Text("photon dimension overflow"))
                    },
                }
            },
            (Some(total), cutoff) => {
                let dimension = choices_between(
                    sites as nat,
                    least_matter(total, cutoff),
                    most_matter(sites, total) + 1,
                );
                match result {
                    Ok(found) => found == dimension,
                    Err(error) => {
                        &&& dimension > usize::MAX
                        &&& error == QmbedError::UnsupportedBackend(Reason::Text("photon dimension overflow"))
                    },
                }
            },
            (None, None) => result == Err::<usize, QmbedError>(
                QmbedError::InvalidSector(
                    Reason::Text("either total excitation or photon cutoff must be finite"),
                ),
            ),
        },
{
    match (total_excitations, photon_cutoff) {
        (None, Some(cutoff)) => {
            let modes: usize = match cutoff.checked_add(1) {
                Some(modes) => modes,
                None => {
                    proof {
                        vstd::arithmetic::power2::lemma_pow2_pos(sites as nat);
                        let p = pow2(sites as nat) as int;
                        assert(p * (cutoff + 1) >= cutoff + 1) by (nonlinear_arith)
                            requires
                                p >= 1,
                        ;
                    }
                    return Err(
                        QmbedError::UnsupportedBackend(Reason::Text("photon dimension overflow")),
                    );
                },
            };
            match checked_pow2(sites) {
                Some(matter) => match matter.checked_mul(modes) {
                    Some(dimension) => Ok(dimension),
                    None => Err(QmbedError::UnsupportedBackend(Reason::Text("photon dimension overflow"))),
                },
                None => {
                    proof {
                        let p = pow2(sites as nat) as int;
                        assert(p * modes >= p) by (nonlinear_arith)
                            requires
                                modes >= 1,
                                p >= 0,
                        ;
                    }
                    Err(QmbedError::UnsupportedBackend(Reason::Text("photon dimension overflow")))
                },
            }
        },
        (Some(total), cutoff) => {
            let least: usize = match cutoff {
                Some(most) => total.saturating_sub(most),
                None => 0,
            };
            let most: usize = if sites < total {
                sites
            } else {
                total
            };
            if least > most {
                return Ok(0);
            }
            let mut sum: usize = 0;
            let mut matter: usize = least;
            loop
                invariant_except_break
                    least <= matter <= most <= sites,
                    sum == choices_between(sites as nat, least as nat, matter as nat),
                invariant
                    least <= most <= sites,
                    total_excitations == Some(total),
                    least == least_matter(total, photon_cutoff),
                    most == most_matter(sites, total),
                ensures
                    sum == choices_between(sites as nat, least as nat, (most + 1) as nat),
                decreases most - matter,
            {
                proof {
                    lemma_choices_grow(
                        sites as nat,
                        least as nat,
                        (matter + 1) as nat,
                        (most + 1) as nat,
                    );
                }
                match checked_binomial(sites, matter) {
                    Some(added) => match sum.checked_add(added) {
                        Some(next) => {
                            sum = next;
                        },
                        None => {
                            return Err(QmbedError::UnsupportedBackend(Reason::Text("photon dimension overflow")));
                        },
                    },
                    None => {
                        return Err(QmbedError::UnsupportedBackend(Reason::Text("photon dimension overflow")));
                    },
                }
                if matter == most {
                    break;
                }
                matter += 1;
            }
            Ok(sum)
        },
        (None, None) => Err(
            QmbedError::InvalidSector(Reason::Text("either total excitation or photon cutoff must be finite")),
        ),
    }
}

} // verus!

//! Bases with a local algebra that their user defines.

use vstd::prelude::*;

use crate::amplitudes::ReductionFactor;
use crate::basis;
use crate::basis::{Basis, Factor, Transitions};
use crate::error::{OperatorFault, QmbedError, Reason, Result};
use crate::linear::{Entries, Scalar};
use crate::ordered::{copy_list, Bounded};
use crate::symbols;
use crate::symbols::{operator_chars, SymbolBuffer};
use crate::table::StateTable;

verus! {

/// Local operators that a user defines: where each leads from a state at a site.
pub trait LocalAlgebra<State, S>: Sized {
    /// Destinations with their amplitudes, or nothing where no operator has the name.
    spec fn spec_act(&self, name: char, state: State, site: usize) -> Option<
        core::result::Result<Entries<(State, S)>, QmbedError>,
    >;

    fn act(&self, name: char, state: State, site: usize) -> (result: Option<
        Result<Vec<(State, S)>>,
    >)
        ensures
            action_is(result, self.spec_act(name, state, site)),
    ;

    /// The same operators again.
    fn again(&self) -> (other: Self)
        ensures
            forall|name: char, state: State, site: usize| #[trigger]
                other.spec_act(name, state, site) == self.spec_act(name, state, site),
    ;
}

/// Whether a returned list of destinations is the stated one.
pub open spec fn action_is<State, S>(
    result: Option<Result<Vec<(State, S)>>>,
    stated: Option<core::result::Result<Seq<(State, S)>, QmbedError>>,
) -> bool {
    match (result, stated) {
        (None, None) => true,
        (Some(Ok(list)), Some(Ok(targets))) => list@ == targets,
        (Some(Err(error)), Some(Err(found))) => error == found,
        _ => false,
    }
}

/// One destination of a local operator at a site.
pub struct LocalRule<State, S> {
    /// Name of the operator.
    pub name: char,
    /// State on which the operator acts.
    pub state: State,
    /// Site at which the operator acts.
    pub site: usize,
    /// Destination.
    pub target: State,
    /// Amplitude of the destination.
    pub amplitude: S,
}

/// Local operators given by a table of their destinations.
pub struct RuleTable<State, S> {
    /// Names of the operators.
    pub names: Vec<char>,
    /// Destinations in order.
    pub rules: Vec<LocalRule<State, S>>,
}

/// Destinations that the first rules give.
pub open spec fn ruled<State, S>(
    rules: Seq<LocalRule<State, S>>,
    name: char,
    state: State,
    site: usize,
    count: nat,
) -> Seq<(State, S)>
    decreases count,
{
    if count == 0 {
        Seq::empty()
    } else {
        let before = ruled(rules, name, state, site, (count - 1) as nat);
        let rule = rules[count - 1];
        if rule.name == name && rule.state == state && rule.site == site {
            before.push((rule.target, rule.amplitude))
        } else {
            before
        }
    }
}

fn same_state<State: Bounded>(left: State, right: State) -> (answer: bool)
    ensures
        answer == (left == right),
{
    crate::symmetry::same_state(left, right)
}

impl<State: Bounded, S: Scalar> LocalAlgebra<State, S> for RuleTable<State, S> {
    open spec fn spec_act(&self, name: char, state: State, site: usize) -> Option<
        core::result::Result<Seq<(State, S)>, QmbedError>,
    > {
        if self.names@.contains(name) {
            Some(Ok(ruled(self.rules@, name, state, site, self.rules@.len())))
        } else {
            None
        }
    }

    fn act(&self, name: char, state: State, site: usize) -> (result: Option<
        Result<Vec<(State, S)>>,
    >) {
        let mut known: bool = false;
        let mut next: usize = 0;
        while next < self.names.len()
            invariant
                next <= self.names@.len(),
                known == self.names@.take(next as int).contains(name),
            decreases self.names@.len() - next,
        {
            proof {
                let before = self.names@.take(next as int);
                let after = self.names@.take(next + 1);
                assert(after =~= before.push(self.names@[next as int]));
                assert(after[next as int] == self.names@[next as int]);
                if before.contains(name) {
                    assert(after[before.index_of(name)] == name);
                }
            }
            if self.names[next] == name {
                known = true;
            }
            next += 1;
        }
        assert(self.names@.take(next as int) =~= self.names@);
        if !known {
            return None;
        }
        let mut list: Vec<(State, S)> = Vec::new();
        let mut next: usize = 0;
        while next < self.rules.len()
            invariant
                next <= self.rules@.len(),
                list@ == ruled(self.rules@, name, state, site, next as nat),
            decreases self.rules@.len() - next,
        {
            let rule: &LocalRule<State, S> = &self.rules[next];
            if rule.name == name && rule.site == site && same_state(rule.state, state) {
                list.push((rule.target, rule.amplitude));
            }
            next += 1;
        }
        Some(Ok(list))
    }

    fn again(&self) -> (other: Self) {
        let names: Vec<char> = copy_list(&self.names);
        let mut rules: Vec<LocalRule<State, S>> = Vec::new();
        let mut next: usize = 0;
        while next < self.rules.len()
            invariant
                next <= self.rules@.len(),
                rules@ == self.rules@.take(next as int),
            decreases self.rules@.len() - next,
        {
            let rule: &LocalRule<State, S> = &self.rules[next];
            rules.push(
                LocalRule {
                    name: rule.name,
                    state: rule.state,
                    site: rule.site,
                    target: rule.target,
                    amplitude: rule.amplitude,
                },
            );
            next += 1;
            assert(rules@ =~= self.rules@.take(next as int));
        }
        assert(rules@ =~= self.rules@);
        RuleTable { names, rules }
    }
}

/// Where a string of operators leads from a state, last symbol first; negligible amplitudes
/// are left out.
pub open spec fn user_branch<State, S: Scalar, A: LocalAlgebra<State, S>>(
    algebra: A,
    total: usize,
    state: State,
    amplitude: S,
    names: Seq<char>,
    sites: Seq<usize>,
    remaining: nat,
) -> core::result::Result<Seq<(State, S)>, QmbedError>
    decreases remaining, 0nat,
{
    if remaining == 0 {
        Ok(seq![(state, amplitude)])
    } else {
        let position = (remaining - 1) as nat;
        let site = sites[position as int];
        if site >= total {
            Err(QmbedError::InvalidSite { site, sites: total })
        } else {
            match algebra.spec_act(names[position as int], state, site) {
                None => Err(
                    QmbedError::InvalidOperator(OperatorFault::Symbol(names[position as int])),
                ),
                Some(Err(error)) => Err(error),
                Some(Ok(targets)) => user_fan(
                    algebra,
                    total,
                    targets,
                    amplitude,
                    names,
                    sites,
                    position,
                    targets.len(),
                ),
            }
        }
    }
}

/// Where the rest of a string of operators leads from the first of some destinations.
pub open spec fn user_fan<State, S: Scalar, A: LocalAlgebra<State, S>>(
    algebra: A,
    total: usize,
    targets: Seq<(State, S)>,
    amplitude: S,
    names: Seq<char>,
    sites: Seq<usize>,
    remaining: nat,
    count: nat,
) -> core::result::Result<Seq<(State, S)>, QmbedError>
    decreases remaining, count,
{
    if count == 0 {
        Ok(Seq::empty())
    } else {
        match user_fan(
            algebra,
            total,
            targets,
            amplitude,
            names,
            sites,
            remaining,
            (count - 1) as nat,
        ) {
            Err(error) => Err(error),
            Ok(before) => {
                let (target, local) = targets[count - 1];
                if local.spec_is_negligible() {
                    Ok(before)
                } else {
                    match user_branch(
                        algebra,
                        total,
                        target,
                        amplitude.spec_times(local),
                        names,
                        sites,
                        remaining,
                    ) {
                        Err(error) => Err(error),
                        Ok(more) => Ok(before + more),
                    }
                }
            },
        }
    }
}

proof fn lemma_fan_fails<State, S: Scalar, A: LocalAlgebra<State, S>>(
    algebra: A,
    total: usize,
    targets: Seq<(State, S)>,
    amplitude: S,
    names: Seq<char>,
    sites: Seq<usize>,
    remaining: nat,
    count: nat,
    later: nat,
)
    requires
        count <= later,
        user_fan(algebra, total, targets, amplitude, names, sites, remaining, count) is Err,
    ensures
        user_fan(algebra, total, targets, amplitude, names, sites, remaining, later) == user_fan(
            algebra,
            total,
            targets,
            amplitude,
            names,
            sites,
            remaining,
            count,
        ),
    decreases later,
{
    if count < later {
        lemma_fan_fails(
            algebra,
            total,
            targets,
            amplitude,
            names,
            sites,
            remaining,
            count,
            (later - 1) as nat,
        );
    }
}

/// Whether a returned list of amplitudes is the stated one.
pub open spec fn walk_is<State, S>(
    result: Result<Vec<(State, S)>>,
    stated: core::result::Result<Seq<(State, S)>, QmbedError>,
) -> bool {
    match (result, stated) {
        (Ok(list), Ok(targets)) => list@ == targets,
        (Err(error), Err(found)) => error == found,
        _ => false,
    }
}

fn visit_user_branch<State: Copy, S: Scalar, A: LocalAlgebra<State, S>>(
    algebra: &A,
    total: usize,
    state: State,
    amplitude: S,
    names: &[char],
    sites: &[usize],
    remaining: usize,
) -> (result: Result<Vec<(State, S)>>)
    requires
        remaining <= names@.len(),
        remaining <= sites@.len(),
    ensures
        walk_is(
            result,
            user_branch(*algebra, total, state, amplitude, names@, sites@, remaining as nat),
        ),
    decreases remaining,
{
    let mut list: Vec<(State, S)> = Vec::new();
    if remaining == 0 {
        list.push((state, amplitude));
        assert(list@ =~= seq![(state, amplitude)]);
        return Ok(list);
    }
    let position: usize = remaining - 1;
    let site: usize = sites[position];
    if site >= total {
        return Err(QmbedError::InvalidSite { site, sites: total });
    }
    let targets: Vec<(State, S)> = match algebra.act(names[position], state, site) {
        None => {
            return Err(QmbedError::InvalidOperator(OperatorFault::Symbol(names[position])));
        },
        Some(Err(error)) => {
            return Err(error);
        },
        Some(Ok(targets)) => targets,
    };
    let mut next: usize = 0;
    while next < targets.len()
        invariant
            next <= targets@.len(),
            position < remaining,
            remaining <= names@.len(),
            remaining <= sites@.len(),
            user_branch(*algebra, total, state, amplitude, names@, sites@, remaining as nat)
                == user_fan(
                *algebra,
                total,
                targets@,
                amplitude,
                names@,
                sites@,
                position as nat,
                targets@.len(),
            ),
            user_fan(
                *algebra,
                total,
                targets@,
                amplitude,
                names@,
                sites@,
                position as nat,
                next as nat,
            ) == Ok::<Seq<(State, S)>, QmbedError>(list@),
        decreases targets@.len() - next,
    {
        let (target, local) = targets[next];
        if !local.is_negligible() {
            let ghost before = list@;
            match visit_user_branch(
                algebra,
                total,
                target,
                amplitude.times(&local),
                names,
                sites,
                position,
            ) {
                Ok(more) => {
                    let mut more: Vec<(State, S)> = more;
                    let ghost added = more@;
                    list.append(&mut more);
                    assert(list@ =~= before + added);
                },
                Err(error) => {
                    proof {
                        lemma_fan_fails(
                            *algebra,
                            total,
                            targets@,
                            amplitude,
                            names@,
                            sites@,
                            position as nat,
                            (next + 1) as nat,
                            targets@.len(),
                        );
                    }
                    return Err(error);
                },
            }
        }
        next += 1;
    }
    Ok(list)
}

/// Constrained basis with a local algebra that its user defines.
pub struct UserBasis<State, S, A> {
    sites: usize,
    states: Vec<State>,
    indices: StateTable<State, usize>,
    algebra: A,
    amplitudes: core::marker::PhantomData<S>,
}

/// Where a string of operators leads from a state.
pub open spec fn user_walk<State, S: Scalar, A: LocalAlgebra<State, S>>(
    algebra: A,
    total: usize,
    state: State,
    operator: Seq<char>,
    sites: Seq<usize>,
) -> core::result::Result<Seq<(State, S)>, QmbedError> {
    let names = symbols::without_separators(operator);
    if names.len() != sites.len() {
        Err(
            QmbedError::InvalidCoupling(Reason::Arity {
                symbols: names.len() as usize,
                sites: sites.len() as usize,
            }),
        )
    } else {
        user_branch(algebra, total, state, S::spec_one(), names, sites, names.len())
    }
}

/// What is wrong with a list of states, if anything.
pub open spec fn states_error<State>(states: Seq<State>) -> Option<QmbedError> {
    if states.len() == 0 {
        Some(QmbedError::InvalidSector(Reason::Text("UserBasis requires at least one accepted state")))
    } else if !states.no_duplicates() {
        Some(QmbedError::InvalidSector(Reason::Text("UserBasis states must be unique")))
    } else {
        None
    }
}

fn index_states<State: Bounded>(states: &Vec<State>) -> (result: Result<StateTable<State, usize>>)
    ensures
        match result {
            Ok(indices) => {
                &&& states_error(states@) is None
                &&& indices.wf()
                &&& forall|k: int|
                    0 <= k < states@.len() ==> indices.entry(#[trigger] states@[k]) == Some(
                        k as usize,
                    )
                &&& forall|s: State| !states@.contains(s) ==> #[trigger] indices.entry(s) is None
            },
            Err(error) => states_error(states@) == Some(error),
        },
{
    if states.len() == 0 {
        return Err(QmbedError::InvalidSector(Reason::Text("UserBasis requires at least one accepted state")));
    }
    let mut indices: StateTable<State, usize> = StateTable::new();
    let mut next: usize = 0;
    while next < states.len()
        invariant
            next <= states@.len(),
            states@.len() > 0,
            indices.wf(),
            forall|i: int, j: int|
                0 <= i < next && 0 <= j < next && i != j ==> states@[i] != states@[j],
            forall|k: int|
                0 <= k < next ==> indices.entry(#[trigger] states@[k]) == Some(k as usize),
            forall|s: State| #[trigger]
                indices.entry(s) is Some ==> (exists|k: int| 0 <= k < next && states@[k] == s),
        decreases states@.len() - next,
    {
        let state: State = states[next];
        if indices.get(state).is_some() {
            proof {
                let k = choose|k: int| 0 <= k < next && states@[k] == state;
                assert(states@[k] == states@[next as int]);
            }
            return Err(QmbedError::InvalidSector(Reason::Text("UserBasis states must be unique")));
        }
        let ghost before = indices;
        indices.insert(state, next);
        proof {
            assert forall|k: int| 0 <= k < next implies states@[k] != state by {
                assert(before.entry(states@[k]) == Some(k as usize));
            }
            assert forall|s: State| #[trigger] indices.entry(s) is Some implies (exists|k: int|
                0 <= k < next + 1 && states@[k] == s) by {
                if s == state {
                    assert(states@[next as int] == s);
                } else {
                    let k = choose|k: int| 0 <= k < next && states@[k] == s;
                    assert(states@[k] == s);
                }
            }
        }
        next += 1;
    }
    proof {
        assert forall|s: State| !states@.contains(s) implies #[trigger] indices.entry(s) is None by {
            if indices.entry(s) is Some {
                let k = choose|k: int| 0 <= k < next && states@[k] == s;
                assert(states@.contains(s));
            }
        }
    }
    Ok(indices)
}

impl<State: Bounded, S: Scalar, A: LocalAlgebra<State, S>> UserBasis<State, S, A> {
    pub closed spec fn spec_sites(&self) -> usize {
        self.sites
    }

    pub closed spec fn spec_algebra(&self) -> A {
        self.algebra
    }

    /// The states in order.
    pub closed spec fn listed(&self) -> Seq<State> {
        self.states@
    }

    /// States with their numbers.
    pub closed spec fn valid(&self) -> bool {
        &&& states_error(self.states@) is None
        &&& self.indices.wf()
        &&& forall|k: int|
            0 <= k < self.states@.len() ==> self.indices.entry(#[trigger] self.states@[k]) == Some(
                k as usize,
            )
        &&& forall|s: State|
            !self.states@.contains(s) ==> #[trigger] self.indices.entry(s) is None
    }

    /// A basis of the given states.
    pub fn new(sites: usize, states: Vec<State>, algebra: A) -> (result: Result<Self>)
        ensures
            match result {
                Ok(basis) => {
                    &&& states_error(states@) is None
                    &&& basis.valid()
                    &&& basis.spec_sites() == sites
                    &&& basis.listed() == states@
                    &&& basis.spec_algebra() == algebra
                },
                Err(error) => states_error(states@) == Some(error),
            },
    {
        match index_states(&states) {
            Ok(indices) => Ok(
                UserBasis {
                    sites,
                    states,
                    indices,
                    algebra,
                    amplitudes: core::marker::PhantomData,
                },
            ),
            Err(error) => Err(error),
        }
    }

    pub fn sites(&self) -> (sites: usize)
        ensures
            sites == self.spec_sites(),
    {
        self.sites
    }

    /// The same local algebra on another explicit set of states.
    pub fn with_states(&self, states: Vec<State>) -> (result: Result<Self>)
        ensures
            match result {
                Ok(basis) => {
                    &&& states_error(states@) is None
                    &&& basis.valid()
                    &&& basis.spec_sites() == self.spec_sites()
                    &&& basis.listed() == states@
                    &&& forall|name: char, state: State, site: usize| #[trigger]
                        basis.spec_algebra().spec_act(name, state, site)
                            == self.spec_algebra().spec_act(name, state, site)
                },
                Err(error) => states_error(states@) == Some(error),
            },
    {
        Self::new(self.sites, states, self.algebra.again())
    }

    /// Where a string of operators leads from a state, before equal destinations are added
    /// up.
    pub fn visit_user_transitions(&self, state: State, operator: &str, sites: &[usize]) -> (result: Result<
        Vec<(State, S)>,
    >)
        ensures
            walk_is(
                result,
                user_walk(self.spec_algebra(), self.spec_sites(), state, operator@, sites@),
            ),
    {
        let buffer: SymbolBuffer = match operator_chars(operator, sites) {
            Ok(buffer) => buffer,
            Err(error) => {
                return Err(error);
            },
        };
        visit_user_branch(
            &self.algebra,
            self.sites,
            state,
            S::one(),
            buffer.as_slice(),
            sites,
            sites.len(),
        )
    }
}

/// Sum of the amplitudes of a destination.
pub open spec fn total_amplitude<State, S: Scalar>(
    list: Seq<(State, S)>,
    target: State,
    count: nat,
) -> S
    decreases count,
{
    if count == 0 {
        S::spec_zero()
    } else {
        let before = total_amplitude(list, target, (count - 1) as nat);
        if list[count - 1].0 == target {
            before.spec_plus(list[count - 1].1)
        } else {
            before
        }
    }
}

/// Whether a destination occurs among the first of a list.
pub open spec fn occurs<State, S>(list: Seq<(State, S)>, target: State, count: nat) -> bool {
    exists|k: int| 0 <= k < count && (#[trigger] list[k]).0 == target
}

/// Destinations that occur, each once with the sum of its amplitudes; negligible sums are
/// left out.
pub open spec fn added_up<State, S: Scalar>(
    list: Seq<(State, S)>,
    sums: Seq<(State, S)>,
) -> bool {
    &&& forall|i: int, j: int|
        0 <= i < sums.len() && 0 <= j < sums.len() && i != j ==> (#[trigger] sums[i]).0 != (
        #[trigger] sums[j]).0
    &&& forall|i: int|
        0 <= i < sums.len() ==> occurs(list, (#[trigger] sums[i]).0, list.len()) && sums[i].1
            == total_amplitude(list, sums[i].0, list.len()) && !sums[i].1.spec_is_negligible()
    &&& forall|target: State|
        occurs(list, target, list.len()) && !(#[trigger] total_amplitude(
            list,
            target,
            list.len(),
        )).spec_is_negligible() ==> occurs(sums, target, sums.len())
}

/// Adds up the amplitudes of equal destinations.
fn add_up<State: Bounded, S: Scalar>(list: &Vec<(State, S)>) -> (sums: Vec<(State, S)>)
    ensures
        added_up(list@, sums@),
{
    let mut order: Vec<State> = Vec::new();
    let mut totals: StateTable<State, S> = StateTable::new();
    let mut next: usize = 0;
    while next < list.len()
        invariant
            next <= list@.len(),
            totals.wf(),
            order@.no_duplicates(),
            forall|i: int|
                0 <= i < order@.len() ==> occurs(list@, #[trigger] order@[i], next as nat),
            forall|target: State| #[trigger] totals.entry(target) is Some <==> order@.contains(target),
            forall|target: State|
                occurs(list@, target, next as nat) ==> #[trigger] order@.contains(target),
            forall|target: State|
                (#[trigger] totals.entry(target)) is Some ==> totals.entry(target)
                    == Some(total_amplitude(list@, target, next as nat)),
        decreases list@.len() - next,
    {
        let (target, amplitude) = list[next];
        let ghost before = order@;
        let ghost known = totals;
        match totals.get(target) {
            Some(sum) => {
                totals.insert(target, sum.plus(&amplitude));
            },
            None => {
                order.push(target);
                totals.insert(target, S::zero().plus(&amplitude));
                proof {
                    lemma_absent(list@, target, next as nat);
                    assert(order@[before.len() as int] == target);
                }
            },
        }
        next += 1;
        proof {
            assert forall|i: int| 0 <= i < order@.len() implies occurs(
                list@,
                #[trigger] order@[i],
                next as nat,
            ) by {
                if i < before.len() {
                    assert(before[i] == order@[i]);
                    let k = choose|k: int|
                        0 <= k < next - 1 && (#[trigger] list@[k]).0 == order@[i];
                    assert(list@[k].0 == order@[i]);
                } else {
                    assert(list@[next - 1].0 == order@[i]);
                }
            }
            assert forall|other: State| before.contains(other) implies #[trigger] order@.contains(
                other,
            ) by {
                assert(order@[before.index_of(other)] == other);
            }
            assert(order@.contains(target)) by {
                if before.contains(target) {
                    assert(order@[before.index_of(target)] == target);
                }
            }
            assert forall|other: State| #[trigger]
                totals.entry(other) is Some <==> order@.contains(other) by {
                if order@.contains(other) && other != target {
                    let at = order@.index_of(other);
                    assert(order@[at] == other);
                    assert(before[at] == other);
                }
            }
            assert forall|other: State| occurs(list@, other, next as nat) implies #[trigger] order@.contains(
                other,
            ) by {
                let k = choose|k: int| 0 <= k < next && (#[trigger] list@[k]).0 == other;
                if k < next - 1 {
                    assert(occurs(list@, other, (next - 1) as nat));
                    assert(before.contains(other));
                }
            }
        }
    }
    let mut sums: Vec<(State, S)> = Vec::new();
    let mut place: usize = 0;
    while place < order.len()
        invariant
            place <= order@.len(),
            totals.wf(),
            order@.no_duplicates(),
            forall|i: int|
                0 <= i < order@.len() ==> occurs(list@, #[trigger] order@[i], list@.len()),
            forall|target: State| #[trigger] totals.entry(target) is Some <==> order@.contains(target),
            forall|target: State|
                (#[trigger] totals.entry(target)) is Some ==> totals.entry(target)
                    == Some(total_amplitude(list@, target, list@.len())),
            forall|i: int, j: int|
                0 <= i < sums@.len() && 0 <= j < sums@.len() && i != j ==> (#[trigger] sums@[i]).0
                    != (#[trigger] sums@[j]).0,
            forall|i: int|
                0 <= i < sums@.len() ==> occurs(list@, (#[trigger] sums@[i]).0, list@.len())
                    && sums@[i].1 == total_amplitude(list@, sums@[i].0, list@.len())
                    && !sums@[i].1.spec_is_negligible(),
            forall|i: int|
                0 <= i < sums@.len() ==> order@.take(place as int).contains(
                    (#[trigger] sums@[i]).0,
                ),
            forall|k: int|
                0 <= k < place && !total_amplitude(
                    list@,
                    #[trigger] order@[k],
                    list@.len(),
                ).spec_is_negligible() ==> occurs(sums@, order@[k], sums@.len()),
        decreases order@.len() - place,
    {
        let target: State = order[place];
        let ghost before = sums@;
        proof {
            assert(order@.contains(target));
            assert(order@.take(place + 1)[place as int] == target);
            assert forall|i: int| 0 <= i < before.len() implies before[i].0 != target by {
                let at = order@.take(place as int).index_of(before[i].0);
                assert(order@.take(place as int)[at] == before[i].0);
                assert(order@[at] == before[i].0);
            }
            assert forall|i: int| 0 <= i < before.len() implies order@.take(place + 1).contains(
                (#[trigger] before[i]).0,
            ) by {
                let at = order@.take(place as int).index_of(before[i].0);
                assert(order@.take(place as int)[at] == before[i].0);
                assert(order@.take(place + 1)[at] == before[i].0);
            }
        }
        match totals.get(target) {
            Some(sum) => {
                if !sum.is_negligible() {
                    sums.push((target, sum));
                    proof {
                        assert(sums@[before.len() as int].0 == target);
                    }
                }
            },
            None => {
                assert(false);
            },
        }
        place += 1;
        proof {
            assert forall|k: int|
                0 <= k < place && !total_amplitude(
                    list@,
                    #[trigger] order@[k],
                    list@.len(),
                ).spec_is_negligible() implies occurs(sums@, order@[k], sums@.len()) by {
                if k < place - 1 {
                    let i = choose|i: int| 0 <= i < before.len() && (#[trigger] before[i]).0 == order@[k];
                    assert(sums@[i].0 == order@[k]);
                }
            }
        }
    }
    proof {
        assert forall|target: State|
            occurs(list@, target, list@.len()) && !(#[trigger] total_amplitude(
                list@,
                target,
                list@.len(),
            )).spec_is_negligible() implies occurs(sums@, target, sums@.len()) by {
            assert(order@.contains(target));
            let k = order@.index_of(target);
            assert(order@[k] == target);
        }
    }
    sums
}

proof fn lemma_absent<State, S: Scalar>(list: Seq<(State, S)>, target: State, count: nat)
    requires
        !occurs(list, target, count),
    ensures
        total_amplitude(list, target, count) == S::spec_zero(),
    decreases count,
{
    if count > 0 {
        assert(!occurs(list, target, (count - 1) as nat)) by {
            if occurs(list, target, (count - 1) as nat) {
                let k = choose|k: int| 0 <= k < count - 1 && (#[trigger] list[k]).0 == target;
                assert(list[k].0 == target);
            }
        }
        assert(list[count - 1].0 != target);
        lemma_absent(list, target, (count - 1) as nat);
    }
}

impl<State: Bounded, S: Scalar, A: LocalAlgebra<State, S>> UserBasis<State, S, A> {
    /// A basis without states yet.
    pub fn builder(sites: usize, algebra: A) -> (builder: UserBasisBuilder<State, A>)
        ensures
            builder.sites == sites,
            builder.states@.len() == 0,
            builder.algebra == algebra,
    {
        UserBasisBuilder { sites, states: Vec::new(), algebra }
    }

    /// Destinations of a string of operators, each once with its amplitude.
    pub fn summed_transitions(&self, state: State, operator: &str, sites: &[usize]) -> (result: Result<
        Vec<(State, S)>,
    >)
        ensures
            match (
                user_walk::<State, S, A>(
                    self.spec_algebra(),
                    self.spec_sites(),
                    state,
                    operator@,
                    sites@,
                ),
                result,
            ) {
                (Ok(list), Ok(sums)) => added_up(list, sums@),
                (Err(stated), Err(error)) => error == stated,
                _ => false,
            },
    {
        match self.visit_user_transitions(state, operator, sites) {
            Ok(list) => Ok(add_up(&list)),
            Err(error) => Err(error),
        }
    }

    /// The only destination of a string of operators.
    pub fn apply_local(&self, state: State, operator: &str, sites: &[usize]) -> (result: Result<
        Option<(State, S)>,
    >)
        ensures
            match (
                user_walk::<State, S, A>(
                    self.spec_algebra(),
                    self.spec_sites(),
                    state,
                    operator@,
                    sites@,
                ),
                result,
            ) {
                (Ok(list), Ok(None)) => added_up(list, Seq::<(State, S)>::empty()),
                (Ok(list), Ok(Some(found))) => added_up(list, seq![found]),
                (Ok(list), Err(error)) => {
                    &&& exists|sums: Seq<(State, S)>| #[trigger]
                        added_up(list, sums) && sums.len() > 1
                    &&& error == QmbedError::UnsupportedBackend(
                        Reason::Text("this user local action branches; use apply_local_transitions"),
                    )
                },
                (Err(stated), Err(error)) => error == stated,
                _ => false,
            },
    {
        match self.summed_transitions(state, operator, sites) {
            Ok(sums) => {
                if sums.len() == 0 {
                    assert(sums@ =~= Seq::empty());
                    return Ok(None);
                }
                if sums.len() > 1 {
                    return Err(
                        QmbedError::UnsupportedBackend(
                            Reason::Text("this user local action branches; use apply_local_transitions"),
                        ),
                    );
                }
                let (target, amplitude) = sums[0];
                assert(sums@ =~= seq![(target, amplitude)]);
                Ok(Some((target, amplitude)))
            },
            Err(error) => Err(error),
        }
    }
}

/// A destination with its amplitude as the only factor: the conjugate of a phase between
/// orbits of one state.
pub open spec fn user_transition<State, S: Scalar>(entry: (State, S)) -> (State, Seq<Factor<S>>) {
    (
        entry.0,
        seq![
            Factor::Reduced(
                ReductionFactor {
                    source_orbit: 1,
                    target_orbit: 1,
                    phase: entry.1.spec_conjugate(),
                },
            ),
        ],
    )
}

impl<State: Bounded, S: Scalar, A: LocalAlgebra<State, S>> Basis for UserBasis<State, S, A> {
    type State = State;

    type Phase = S;

    open spec fn wf(&self) -> bool {
        self.valid()
    }

    open spec fn spec_states(&self) -> Seq<State> {
        self.listed()
    }

    open spec fn acts_on(&self, state: State) -> bool {
        true
    }

    open spec fn spec_transitions(
        &self,
        state: State,
        operator: Seq<char>,
        sites: Seq<usize>,
    ) -> core::result::Result<Seq<(State, Seq<Factor<S>>)>, QmbedError> {
        match user_walk::<State, S, A>(
            self.spec_algebra(),
            self.spec_sites(),
            state,
            operator,
            sites,
        ) {
            Ok(list) => Ok(Seq::new(list.len(), |i: int| user_transition(list[i]))),
            Err(error) => Err(error),
        }
    }

    open spec fn spec_preserves(&self, operator: Seq<char>) -> core::result::Result<
        bool,
        QmbedError,
    > {
        Ok(true)
    }

    open spec fn spec_preserves_on_sites(
        &self,
        operator: Seq<char>,
        sites: Seq<usize>,
    ) -> core::result::Result<bool, QmbedError> {
        self.spec_preserves(operator)
    }

    open spec fn faithful(&self) -> bool {
        true
    }

    proof fn states_distinct(&self) {
    }

    proof fn acts_on_states(&self, index: int) {
    }

    fn len(&self) -> (length: usize) {
        self.states.len()
    }

    fn state(&self, index: usize) -> (result: Result<State>) {
        if index < self.states.len() {
            Ok(self.states[index])
        } else {
            Err(QmbedError::StateNotInBasis)
        }
    }

    fn index(&self, state: State) -> (result: Result<usize>) {
        let total: usize = self.states.len();
        match self.indices.get(state) {
            Some(index) => {
                proof {
                    assert(self.states@.contains(state));
                    let k = self.states@.index_of(state);
                    assert(self.states@[k] == state);
                    assert(k < total);
                }
                Ok(index)
            },
            None => {
                proof {
                    if self.states@.contains(state) {
                        let k = self.states@.index_of(state);
                        assert(self.states@[k] == state);
                    }
                }
                Err(QmbedError::StateNotInBasis)
            },
        }
    }

    fn apply_local_transitions(&self, state: State, operator: &str, sites: &[usize]) -> (result:
        Result<Transitions<State, S>>) {
        let list: Vec<(State, S)> = match self.visit_user_transitions(state, operator, sites) {
            Ok(list) => list,
            Err(error) => {
                return Err(error);
            },
        };
        let ghost stated = Seq::new(list@.len(), |i: int| user_transition(list@[i]));
        let mut transitions: Transitions<State, S> = Vec::new();
        let mut next: usize = 0;
        while next < list.len()
            invariant
                next <= list@.len(),
                stated == Seq::new(list@.len(), |i: int| user_transition(list@[i])),
                transitions@.len() == next,
                forall|i: int|
                    0 <= i < next ==> (#[trigger] transitions@[i]).0 == stated[i].0
                        && transitions@[i].1@ == stated[i].1,
            decreases list@.len() - next,
        {
            let (target, amplitude) = list[next];
            let mut factors: Vec<Factor<S>> = Vec::new();
            factors.push(
                Factor::Reduced(
                    ReductionFactor {
                        source_orbit: 1,
                        target_orbit: 1,
                        phase: amplitude.conjugate(),
                    },
                ),
            );
            assert(factors@ =~= stated[next as int].1);
            transitions.push((target, factors));
            next += 1;
        }
        assert(basis::transitions_view(transitions@) =~= stated);
        Ok(transitions)
    }

    fn operator_preserves_particle_sector_on_sites(
        &self,
        operator: &str,
        sites: &[usize],
    ) -> (result: Result<bool>) {
        self.operator_preserves_particle_sector(operator)
    }

    fn operator_preserves_particle_sector(&self, operator: &str) -> (result: Result<bool>) {
        Ok(true)
    }
}

/// Sites, states and local algebra of a basis to be built.
pub struct UserBasisBuilder<State, A> {
    pub sites: usize,
    pub states: Vec<State>,
    pub algebra: A,
}

impl<State: Bounded, A> UserBasisBuilder<State, A> {
    /// The basis with these states in place of others.
    pub fn states(self, states: Vec<State>) -> (builder: Self)
        ensures
            builder.sites == self.sites,
            builder.states == states,
            builder.algebra == self.algebra,
    {
        UserBasisBuilder { sites: self.sites, states, algebra: self.algebra }
    }

    pub fn build<S: Scalar>(self) -> (result: Result<UserBasis<State, S, A>>) where
        A: LocalAlgebra<State, S>,

        ensures
            match result {
                Ok(basis) => {
                    &&& states_error(self.states@) is None
                    &&& basis.valid()
                    &&& basis.spec_sites() == self.sites
                    &&& basis.listed() == self.states@
                    &&& basis.spec_algebra() == self.algebra
                },
                Err(error) => states_error(self.states@) == Some(error),
            },
    {
        UserBasis::new(self.sites, self.states, self.algebra)
    }

    pub fn materialize<S: Scalar>(self) -> (result: Result<UserBasis<State, S, A>>) where
        A: LocalAlgebra<State, S>,

        ensures
            match result {
                Ok(basis) => {
                    &&& states_error(self.states@) is None
                    &&& basis.valid()
                    &&& basis.spec_sites() == self.sites
                    &&& basis.listed() == self.states@
                    &&& basis.spec_algebra() == self.algebra
                },
                Err(error) => states_error(self.states@) == Some(error),
            },
    {
        self.build()
    }
}

/// Whether a list holds the kept states of a range, ascending.
pub open spec fn filtered<F: Fn(u128) -> bool>(keep: F, states: Seq<u128>, start: u128, end: u128) -> bool {
    &&& forall|i: int, j: int| 0 <= i < j < states.len() ==> states[i] < states[j]
    &&& forall|i: int|
        0 <= i < states.len() ==> start <= (#[trigger] states[i]) < end && keep.ensures(
            (states[i],),
            true,
        )
    &&& forall|state: u128|
        start <= state < end && !(#[trigger] states.contains(state)) ==> keep.ensures(
            (state,),
            false,
        )
}

/// The kept states of a range, ascending.
pub fn filter_range<F: Fn(u128) -> bool>(keep: &F, start: u128, end: u128) -> (states: Vec<u128>)
    requires
        forall|state: u128| start <= state < end ==> #[trigger] keep.requires((state,)),
    ensures
        filtered(*keep, states@, start, end),
{
    let mut states: Vec<u128> = Vec::new();
    let mut next: u128 = start;
    while next < end
        invariant
            start <= next,
            next <= end || next == start,
            forall|state: u128| start <= state < end ==> #[trigger] keep.requires((state,)),
            filtered(*keep, states@, start, next),
        decreases end - next,
    {
        let ghost before = states@;
        if keep(next) {
            states.push(next);
            assert(states@[before.len() as int] == next);
        }
        proof {
            assert forall|state: u128|
                start <= state < next + 1 && !(#[trigger] states@.contains(
                    state,
                )) implies keep.ensures((state,), false) by {
                if before.contains(state) {
                    assert(states@[before.index_of(state)] == state);
                }
            }
        }
        next = next + 1;
    }
    states
}

/// What two neighbouring ranges keep, one after the other, is what the joint range keeps: the
/// states do not depend on how a range is shared among workers.
pub proof fn law_ranges_join<F: Fn(u128) -> bool>(
    keep: F,
    left: Seq<u128>,
    right: Seq<u128>,
    start: u128,
    middle: u128,
    end: u128,
)
    requires
        start <= middle <= end,
        filtered(keep, left, start, middle),
        filtered(keep, right, middle, end),
    ensures
        filtered(keep, left + right, start, end),
{
    let joint = left + right;
    assert forall|i: int, j: int| 0 <= i < j < joint.len() implies joint[i] < joint[j] by {
        if i < left.len() <= j {
            assert(left[i] < middle);
            assert(middle <= right[j - left.len()]);
        }
    }
    assert forall|i: int| 0 <= i < joint.len() implies start <= (#[trigger] joint[i]) < end
        && keep.ensures((joint[i],), true) by {
        if i < left.len() {
            assert(left[i] < middle);
        } else {
            assert(middle <= right[i - left.len()]);
        }
    }
    assert forall|state: u128|
        start <= state < end && !(#[trigger] joint.contains(state)) implies keep.ensures(
        (state,),
        false,
    ) by {
        if left.contains(state) {
            assert(joint[left.index_of(state)] == state);
        }
        if right.contains(state) {
            assert(joint[left.len() + right.index_of(state)] == state);
        }
    }
}

/// Number of states of binary sites.
pub open spec fn binary_limit(sites: usize) -> u128 {
    1u128 << (sites as u128)
}

/// Number of states of binary sites, where it fits.
pub fn filter_limit(sites: usize) -> (result: Result<u128>)
    ensures
        if sites > 127 {
            result == Err::<u128, QmbedError>(
                QmbedError::UnsupportedBackend(Reason::Text("u128 UserBasis filters support at most 127 sites")),
            )
        } else {
            result == Ok::<u128, QmbedError>(binary_limit(sites))
        },
{
    if sites > 127 {
        return Err(
            QmbedError::UnsupportedBackend(Reason::Text("u128 UserBasis filters support at most 127 sites")),
        );
    }
    Ok(1u128 << (sites as u128))
}

impl<A> UserBasisBuilder<u128, A> {
    /// The basis of the kept states of binary sites.
    pub fn state_filter<F: Fn(u128) -> bool>(self, keep: F) -> (result: Result<Self>)
        requires
            forall|state: u128| #[trigger] keep.requires((state,)),
        ensures
            match result {
                Ok(builder) => {
                    &&& self.sites <= 127
                    &&& builder.sites == self.sites
                    &&& builder.algebra == self.algebra
                    &&& filtered(keep, builder.states@, 0, binary_limit(self.sites))
                },
                Err(error) => {
                    &&& self.sites > 127
                    &&& error == QmbedError::UnsupportedBackend(
                        Reason::Text("u128 UserBasis filters support at most 127 sites"),
                    )
                },
            },
    {
        let limit: u128 = match filter_limit(self.sites) {
            Ok(limit) => limit,
            Err(error) => {
                return Err(error);
            },
        };
        let states: Vec<u128> = filter_range(&keep, 0, limit);
        Ok(UserBasisBuilder { sites: self.sites, states, algebra: self.algebra })
    }
}

/// Consecutive ranges of states that workers filter; they cover all states up to a limit.
pub fn filter_chunks(limit: u128, workers: usize) -> (chunks: Vec<(u128, u128)>)
    requires
        workers > 0,
        limit < 0x8000_0000_0000_0000_0000_0000_0000_0001u128,
    ensures
        chunks@.len() == workers,
        chunks@[0].0 == 0,
        chunks@[workers - 1].1 == limit,
        forall|w: int| 0 <= w < workers - 1 ==> (#[trigger] chunks@[w]).1 == chunks@[w + 1].0,
        forall|w: int| 0 <= w < workers ==> (#[trigger] chunks@[w]).0 <= chunks@[w].1 <= limit,
{
    let count: u128 = workers as u128;
    let stride: u128 = limit / count + (if limit % count == 0 {
        0u128
    } else {
        1u128
    });
    proof {
        vstd::arithmetic::div_mod::lemma_fundamental_div_mod(limit as int, count as int);
        assert(count * stride >= limit) by (nonlinear_arith)
            requires
                count > 0,
                limit == count * (limit / count) + limit % count,
                limit % count < count,
                stride == limit / count + (if limit % count == 0 {
                    0int
                } else {
                    1int
                }),
        ;
    }
    let mut chunks: Vec<(u128, u128)> = Vec::new();
    let mut start: u128 = 0;
    let mut worker: usize = 0;
    while worker < workers
        invariant
            worker <= workers,
            chunks@.len() == worker,
            start <= limit,
            start == limit || start == worker * stride,
            worker > 0 ==> chunks@[0].0 == 0,
            worker > 0 ==> chunks@[worker - 1].1 == start,
            worker == 0 ==> start == 0,
            forall|w: int| 0 <= w < worker - 1 ==> (#[trigger] chunks@[w]).1 == chunks@[w + 1].0,
            forall|w: int|
                0 <= w < worker ==> (#[trigger] chunks@[w]).0 <= chunks@[w].1 <= limit,
        decreases workers - worker,
    {
        let end: u128 = if stride < limit - start {
            start + stride
        } else {
            limit
        };
        proof {
            assert((worker + 1) * stride == worker * stride + stride) by (nonlinear_arith);
        }
        chunks.push((start, end));
        start = end;
        worker += 1;
    }
    proof {
        assert(workers * stride >= limit) by (nonlinear_arith)
            requires
                count * stride >= limit,
                count == workers,
        ;
    }
    chunks
}

} // verus!

//! Exchange phases of regrouped noncommuting modes.

use vstd::arithmetic::div_mod::*;
use vstd::arithmetic::mul::*;
use vstd::arithmetic::power2::*;
use vstd::prelude::*;

use crate::amplitudes::Turn;
use crate::bits;
use crate::bits::{checked_pow2, test_bit};
use crate::erased::{ErasedState, ErasedStateValue};
use crate::error::{QmbedError, Reason, Result};
use crate::ordered::{copy_list, Bounded};
use crate::permutation;
use crate::subsystem;
use crate::subsystem::{list_environment, mark_retained, subsystem_index_map, SubsystemIndexMap};
use crate::symmetry::PhaseFactor;
use crate::table::StateTable;
use crate::wide;
use crate::wide::WideState;

verus! {

/// One disjoint set of binary modes sharing an exchange phase.
#[derive(Clone, Debug)]
pub struct NoncommutingGroup<P> {
    sites: Vec<usize>,
    exchange_phase: P,
}

impl<P: PhaseFactor> NoncommutingGroup<P> {
    pub closed spec fn spec_sites(&self) -> Seq<usize> {
        self.sites@
    }

    pub closed spec fn spec_exchange_phase(&self) -> P {
        self.exchange_phase
    }

    /// Modes and the phase of every exchange of two of them.
    pub fn new(sites: Vec<usize>, exchange_phase: P) -> (result: Result<Self>)
        ensures
            match result {
                Ok(group) => {
                    &&& exchange_phase.spec_is_finite() && exchange_phase.spec_is_unit()
                    &&& group.spec_sites() == sites@
                    &&& group.spec_exchange_phase() == exchange_phase
                },
                Err(error) => {
                    &&& !(exchange_phase.spec_is_finite() && exchange_phase.spec_is_unit())
                    &&& error == QmbedError::InvalidOptions(
                        Reason::Text("a noncommuting exchange phase must be finite and have unit magnitude"),
                    )
                },
            },
    {
        if !exchange_phase.is_finite() || !exchange_phase.is_unit() {
            return Err(
                QmbedError::InvalidOptions(
                    Reason::Text("a noncommuting exchange phase must be finite and have unit magnitude"),
                ),
            );
        }
        Ok(NoncommutingGroup { sites, exchange_phase })
    }

    /// The modes of the group.
    pub fn sites(&self) -> (sites: &Vec<usize>)
        ensures
            sites@ == self.spec_sites(),
    {
        &self.sites
    }

    /// Phase of one exchange.
    pub fn exchange_phase(&self) -> (phase: P)
        ensures
            phase == self.spec_exchange_phase(),
    {
        self.exchange_phase
    }
}

/// The modes of every group.
pub open spec fn group_sites<P: PhaseFactor>(groups: Seq<NoncommutingGroup<P>>) -> Seq<
    Seq<usize>,
> {
    Seq::new(groups.len(), |g: int| groups[g].spec_sites())
}

/// Whether an earlier group has a site.
pub open spec fn in_earlier_group(groups: Seq<Seq<usize>>, count: nat, site: usize) -> bool
    decreases count,
{
    if count == 0 {
        false
    } else {
        in_earlier_group(groups, (count - 1) as nat, site) || groups[count - 1].contains(site)
    }
}

/// Why a mode of a group is refused, if it is. Where local dimensions are given, the
/// mode has to be binary.
pub open spec fn mode_error(
    sites: nat,
    dimensions: Option<Seq<usize>>,
    groups: Seq<Seq<usize>>,
    group: nat,
    place: nat,
) -> Option<QmbedError> {
    let site = groups[group as int][place as int];
    if site >= sites {
        Some(QmbedError::InvalidSite { site, sites: sites as usize })
    } else if dimensions is Some && dimensions->0[site as int] != 2 {
        Some(QmbedError::InvalidOptions(Reason::NotBinary { site }))
    } else if groups[group as int].take(place as int).contains(site) {
        Some(QmbedError::InvalidOptions(Reason::Text("a noncommuting group cannot repeat a site")))
    } else if in_earlier_group(groups, group, site) {
        Some(QmbedError::InvalidOptions(Reason::Text("noncommuting groups must be disjoint")))
    } else {
        None
    }
}

/// The first refusal among the first modes of a group.
pub open spec fn group_error(
    sites: nat,
    dimensions: Option<Seq<usize>>,
    groups: Seq<Seq<usize>>,
    group: nat,
    count: nat,
) -> Option<QmbedError>
    decreases count,
{
    if count == 0 {
        None
    } else {
        match group_error(sites, dimensions, groups, group, (count - 1) as nat) {
            Some(error) => Some(error),
            None => mode_error(sites, dimensions, groups, group, (count - 1) as nat),
        }
    }
}

/// The first refusal among the modes of the first groups.
pub open spec fn groups_error(
    sites: nat,
    dimensions: Option<Seq<usize>>,
    groups: Seq<Seq<usize>>,
    count: nat,
) -> Option<QmbedError>
    decreases count,
{
    if count == 0 {
        None
    } else {
        match groups_error(sites, dimensions, groups, (count - 1) as nat) {
            Some(error) => Some(error),
            None => group_error(
                sites,
                dimensions,
                groups,
                (count - 1) as nat,
                groups[count - 1].len(),
            ),
        }
    }
}

proof fn lemma_group_fails(
    sites: nat,
    dimensions: Option<Seq<usize>>,
    groups: Seq<Seq<usize>>,
    group: nat,
    count: nat,
    later: nat,
)
    requires
        count <= later,
        group_error(sites, dimensions, groups, group, count) is Some,
    ensures
        group_error(sites, dimensions, groups, group, later) == group_error(
            sites,
            dimensions,
            groups,
            group,
            count,
        ),
    decreases later,
{
    if count < later {
        lemma_group_fails(sites, dimensions, groups, group, count, (later - 1) as nat);
    }
}

proof fn lemma_groups_fail(
    sites: nat,
    dimensions: Option<Seq<usize>>,
    groups: Seq<Seq<usize>>,
    count: nat,
    later: nat,
)
    requires
        count <= later,
        groups_error(sites, dimensions, groups, count) is Some,
    ensures
        groups_error(sites, dimensions, groups, later) == groups_error(
            sites,
            dimensions,
            groups,
            count,
        ),
    decreases later,
{
    if count < later {
        lemma_groups_fail(sites, dimensions, groups, count, (later - 1) as nat);
    }
}

/// Whether a table gives every site its group: among the first groups, and among the
/// first modes of the next one.
pub open spec fn gives_groups(
    table: Seq<Option<usize>>,
    groups: Seq<Seq<usize>>,
    count: nat,
    place: nat,
) -> bool {
    forall|site: int|
        0 <= site < table.len() ==> match #[trigger] table[site] {
            Some(group) => {
                ||| group < count && groups[group as int].contains(site as usize)
                ||| group == count && groups[group as int].take(place as int).contains(
                    site as usize,
                )
            },
            None => {
                &&& !in_earlier_group(groups, count, site as usize)
                &&& !groups[count as int].take(place as int).contains(site as usize)
            },
        }
}

/// The group of every site.
fn claim_groups<P: PhaseFactor>(
    sites: usize,
    dimensions: Option<&[usize]>,
    groups: &Vec<NoncommutingGroup<P>>,
) -> (result: Result<Vec<Option<usize>>>)
    requires
        dimensions is Some ==> dimensions->0@.len() == sites,
    ensures
        ({
            let given = match dimensions {
                Some(list) => Some(list@),
                None => None,
            };
            let lists = group_sites(groups@);
            match result {
                Ok(table) => {
                    &&& groups_error(sites as nat, given, lists, lists.len()) is None
                    &&& table@.len() == sites
                    &&& gives_groups(table@, lists, lists.len(), 0)
                },
                Err(error) => groups_error(sites as nat, given, lists, lists.len()) == Some(error),
            }
        }),
{
    let ghost given = match dimensions {
        Some(list) => Some(list@),
        None => None,
    };
    let ghost lists = group_sites(groups@);
    let mut table: Vec<Option<usize>> = Vec::new();
    let mut at: usize = 0;
    while at < sites
        invariant
            at <= sites,
            table@.len() == at,
            forall|i: int| 0 <= i < at ==> #[trigger] table@[i] is None,
        decreases sites - at,
    {
        table.push(None);
        at += 1;
    }
    let mut group: usize = 0;
    assert(lists[0].take(0) =~= Seq::empty());
    while group < groups.len()
        invariant
            group <= groups@.len(),
            lists == group_sites(groups@),
            given == (match dimensions {
                Some(list) => Some(list@),
                None => None,
            }),
            dimensions is Some ==> dimensions->0@.len() == sites,
            table@.len() == sites,
            groups_error(sites as nat, given, lists, group as nat) is None,
            gives_groups(table@, lists, group as nat, 0),
        decreases groups@.len() - group,
    {
        let modes: &Vec<usize> = groups[group].sites();
        let ghost list = lists[group as int];
        let mut place: usize = 0;
        while place < modes.len()
            invariant
                group < groups@.len(),
                place <= modes@.len(),
                modes@ == list,
                lists == group_sites(groups@),
                list == lists[group as int],
                given == (match dimensions {
                    Some(list) => Some(list@),
                    None => None,
                }),
                dimensions is Some ==> dimensions->0@.len() == sites,
                table@.len() == sites,
                groups_error(sites as nat, given, lists, group as nat) is None,
                group_error(sites as nat, given, lists, group as nat, place as nat) is None,
                gives_groups(table@, lists, group as nat, place as nat),
            decreases modes@.len() - place,
        {
            let site: usize = modes[place];
            let ghost refusal = mode_error(
                sites as nat,
                given,
                lists,
                group as nat,
                place as nat,
            );
            proof {
                if refusal is Some {
                    lemma_group_fails(
                        sites as nat,
                        given,
                        lists,
                        group as nat,
                        (place + 1) as nat,
                        list.len(),
                    );
                    lemma_groups_fail(
                        sites as nat,
                        given,
                        lists,
                        (group + 1) as nat,
                        lists.len(),
                    );
                }
            }
            if site >= sites {
                return Err(QmbedError::InvalidSite { site, sites });
            }
            if let Some(local) = dimensions {
                if local[site] != 2 {
                    return Err(QmbedError::InvalidOptions(Reason::NotBinary { site }));
                }
            }
            let ghost part = list.take(place as int);
            if let Some(owner) = table[site] {
                proof {
                    assert(table@[site as int] == Some(owner));
                    if owner < group {
                        lemma_in_earlier(lists, owner as nat, group as nat, site);
                    }
                }
                if repeats(modes, place, site) {
                    return Err(
                        QmbedError::InvalidOptions(Reason::Text("a noncommuting group cannot repeat a site")),
                    );
                }
                return Err(QmbedError::InvalidOptions(Reason::Text("noncommuting groups must be disjoint")));
            }
            let ghost before = table@;
            table[site] = Some(group);
            proof {
                let more = list.take(place + 1);
                assert(more =~= part.push(site));
                assert(before[site as int] is None);
                assert forall|s: int| 0 <= s < table@.len() implies match #[trigger] table@[s] {
                    Some(g) => {
                        ||| g < group && lists[g as int].contains(s as usize)
                        ||| g == group && lists[g as int].take(place + 1).contains(s as usize)
                    },
                    None => {
                        &&& !in_earlier_group(lists, group as nat, s as usize)
                        &&& !lists[group as int].take(place + 1).contains(s as usize)
                    },
                } by {
                    if s == site {
                        assert(more[place as int] == site);
                    } else {
                        assert(table@[s] == before[s]);
                        if more.contains(s as usize) {
                            let i = more.index_of(s as usize);
                            assert(part[i] == s);
                        }
                        if part.contains(s as usize) {
                            let i = part.index_of(s as usize);
                            assert(more[i] == s);
                        }
                    }
                }
            }
            place += 1;
        }
        proof {
            assert(list.take(place as int) =~= list);
            assert forall|s: int| 0 <= s < table@.len() implies match #[trigger] table@[s] {
                Some(g) => {
                    ||| g < group + 1 && lists[g as int].contains(s as usize)
                    ||| g == group + 1 && lists[g as int].take(0).contains(s as usize)
                },
                None => {
                    &&& !in_earlier_group(lists, (group + 1) as nat, s as usize)
                    &&& !lists[group + 1].take(0).contains(s as usize)
                },
            } by {
            }
        }
        group += 1;
    }
    Ok(table)
}

/// Whether a site stands among the first entries.
fn repeats(modes: &Vec<usize>, place: usize, site: usize) -> (answer: bool)
    requires
        place <= modes@.len(),
    ensures
        answer == modes@.take(place as int).contains(site),
{
    let mut next: usize = 0;
    while next < place
        invariant
            next <= place <= modes@.len(),
            forall|i: int| 0 <= i < next ==> #[trigger] modes@[i] != site,
        decreases place - next,
    {
        if modes[next] == site {
            assert(modes@.take(place as int)[next as int] == site);
            return true;
        }
        next += 1;
    }
    false
}

proof fn lemma_in_earlier(groups: Seq<Seq<usize>>, group: nat, count: nat, site: usize)
    requires
        group < count,
        groups[group as int].contains(site),
    ensures
        in_earlier_group(groups, count, site),
    decreases count,
{
    if group < count - 1 {
        lemma_in_earlier(groups, group, (count - 1) as nat, site);
    }
}

/// The order of the regrouped sites: the environment first.
pub open spec fn new_order(sites: nat, retained: Seq<usize>) -> Seq<usize> {
    subsystem::environment_of(sites, retained) + retained
}

/// Places in the new order.
fn place_sites(sites: usize, environment: &Vec<usize>, retained: &[usize]) -> (positions: Vec<usize>)
    requires
        environment@ == subsystem::environment_of(sites as nat, retained@),
        subsystem::distinct_sites(sites as nat, retained@),
        environment@.len() + retained@.len() <= usize::MAX,
    ensures
        positions@.len() == sites,
        forall|i: int|
            0 <= i < new_order(sites as nat, retained@).len() ==> positions@[new_order(
                sites as nat,
                retained@,
            )[i] as int] == i,
{
    let ghost order = new_order(sites as nat, retained@);
    let mut positions: Vec<usize> = vec![0; sites];
    proof {
        subsystem::lemma_environment(sites as nat, retained@);
        assert forall|i: int| 0 <= i < order.len() implies #[trigger] order[i] < sites by {
            if i < environment@.len() {
                assert(environment@[i] < sites);
            } else {
                assert(retained@[i - environment@.len()] < sites);
            }
        }
        assert forall|i: int, j: int| 0 <= i < order.len() && 0 <= j < order.len() && i
            != j implies order[i] != order[j] by {
            if i < environment@.len() && j < environment@.len() {
                assert(environment@[i] != environment@[j]);
            } else if i < environment@.len() {
                assert(environment@.contains(environment@[i]));
                assert(retained@.contains(retained@[j - environment@.len()]));
            } else if j < environment@.len() {
                assert(environment@.contains(environment@[j]));
                assert(retained@.contains(retained@[i - environment@.len()]));
            } else {
                assert(retained@[i - environment@.len()] != retained@[j - environment@.len()]);
            }
        }
    }
    let mut next: usize = 0;
    while next < environment.len()
        invariant
            next <= environment@.len(),
            environment@.len() + retained@.len() <= usize::MAX,
            order == environment@ + retained@,
            positions@.len() == sites,
            order.no_duplicates(),
            forall|i: int| 0 <= i < order.len() ==> #[trigger] order[i] < sites,
            forall|i: int| 0 <= i < next ==> positions@[#[trigger] order[i] as int] == i,
        decreases environment@.len() - next,
    {
        assert(environment@[next as int] == order[next as int]);
        positions[environment[next]] = next;
        next += 1;
    }
    let mut rest: usize = 0;
    while rest < retained.len()
        invariant
            rest <= retained@.len(),
            environment@.len() + retained@.len() <= usize::MAX,
            order == environment@ + retained@,
            positions@.len() == sites,
            order.no_duplicates(),
            forall|i: int| 0 <= i < order.len() ==> #[trigger] order[i] < sites,
            forall|i: int|
                0 <= i < environment@.len() + rest ==> positions@[#[trigger] order[i] as int] == i,
        decreases retained@.len() - rest,
    {
        assert(retained@[rest as int] == order[environment@.len() + rest]);
        positions[retained[rest]] = environment.len() + rest;
        rest += 1;
    }
    positions
}

/// Whether two occupied modes of a group change their order.
pub open spec fn crossing(
    occupied: Seq<bool>,
    table: Seq<Option<usize>>,
    positions: Seq<usize>,
    group: usize,
    left: int,
    right: int,
) -> bool {
    &&& table[left] == Some(group)
    &&& table[right] == Some(group)
    &&& occupied[left]
    &&& occupied[right]
    &&& positions[left] > positions[right]
}

/// Crossings of one mode with the modes behind it.
pub open spec fn crossings_of(
    occupied: Seq<bool>,
    table: Seq<Option<usize>>,
    positions: Seq<usize>,
    group: usize,
    left: int,
    end: int,
) -> nat
    decreases end - left,
{
    if end <= left + 1 {
        0
    } else {
        crossings_of(occupied, table, positions, group, left, end - 1) + if crossing(
            occupied,
            table,
            positions,
            group,
            left,
            end - 1,
        ) {
            1nat
        } else {
            0
        }
    }
}

/// Crossings of the first modes with all modes behind them.
pub open spec fn crossings(
    occupied: Seq<bool>,
    table: Seq<Option<usize>>,
    positions: Seq<usize>,
    group: usize,
    count: nat,
) -> nat
    decreases count,
{
    if count == 0 {
        0
    } else {
        crossings(occupied, table, positions, group, (count - 1) as nat) + crossings_of(
            occupied,
            table,
            positions,
            group,
            count - 1,
            occupied.len() as int,
        )
    }
}

proof fn lemma_crossings_of_bound(
    occupied: Seq<bool>,
    table: Seq<Option<usize>>,
    positions: Seq<usize>,
    group: usize,
    left: int,
    end: int,
)
    requires
        0 <= left,
        0 <= end,
    ensures
        crossings_of(occupied, table, positions, group, left, end) <= end,
        table[left] != Some(group) || !occupied[left] ==> crossings_of(
            occupied,
            table,
            positions,
            group,
            left,
            end,
        ) == 0,
    decreases end - left,
{
    if end > left + 1 {
        lemma_crossings_of_bound(occupied, table, positions, group, left, end - 1);
    }
}

proof fn lemma_crossings_bound(
    occupied: Seq<bool>,
    table: Seq<Option<usize>>,
    positions: Seq<usize>,
    group: usize,
    count: nat,
)
    ensures
        crossings(occupied, table, positions, group, count) <= count * occupied.len(),
    decreases count,
{
    if count > 0 {
        let n = occupied.len();
        lemma_crossings_bound(occupied, table, positions, group, (count - 1) as nat);
        lemma_crossings_of_bound(occupied, table, positions, group, count - 1, n as int);
        assert(count * n == (count - 1) * n + n) by (nonlinear_arith)
            requires
                count >= 1,
        ;
    }
}

/// Number of crossings in every group.
fn count_crossings(
    occupied: &Vec<bool>,
    table: &Vec<Option<usize>>,
    positions: &Vec<usize>,
    groups: usize,
) -> (counts: Vec<u128>)
    requires
        table@.len() == occupied@.len(),
        positions@.len() == occupied@.len(),
        forall|i: int|
            0 <= i < table@.len() ==> (#[trigger] table@[i] is Some ==> table@[i]->0 < groups),
    ensures
        counts@.len() == groups,
        forall|g: int|
            0 <= g < groups ==> #[trigger] counts@[g] == crossings(
                occupied@,
                table@,
                positions@,
                g as usize,
                occupied@.len(),
            ),
{
    let sites: usize = occupied.len();
    let mut counts: Vec<u128> = Vec::new();
    let mut at: usize = 0;
    while at < groups
        invariant
            at <= groups,
            counts@.len() == at,
            forall|g: int| 0 <= g < at ==> #[trigger] counts@[g] == 0,
        decreases groups - at,
    {
        counts.push(0);
        at += 1;
    }
    let mut left: usize = 0;
    while left < sites
        invariant
            left <= sites,
            sites == occupied@.len(),
            table@.len() == sites,
            positions@.len() == sites,
            counts@.len() == groups,
            forall|i: int|
                0 <= i < table@.len() ==> (#[trigger] table@[i] is Some ==> table@[i]->0 < groups),
            forall|g: int|
                0 <= g < groups ==> #[trigger] counts@[g] == crossings(
                    occupied@,
                    table@,
                    positions@,
                    g as usize,
                    left as nat,
                ),
        decreases sites - left,
    {
        let ghost before = counts@;
        match table[left] {
            Some(group) => {
                if occupied[left] {
                    assert(table@[left as int] is Some);
                    let mut right: usize = left + 1;
                    while right < sites
                        invariant
                            left < right <= sites,
                            sites == occupied@.len(),
                            table@.len() == sites,
                            positions@.len() == sites,
                            table@[left as int] == Some(group),
                            occupied@[left as int],
                            group < groups,
                            before.len() == groups,
                            before[group as int] == crossings(
                                occupied@,
                                table@,
                                positions@,
                                group,
                                left as nat,
                            ),
                            counts@.len() == groups,
                            forall|g: int|
                                0 <= g < groups && g != group ==> #[trigger] counts@[g]
                                    == before[g],
                            counts@[group as int] == before[group as int] + crossings_of(
                                occupied@,
                                table@,
                                positions@,
                                group,
                                left as int,
                                right as int,
                            ),
                        decreases sites - right,
                    {
                        let same: bool = match table[right] {
                            Some(other) => other == group,
                            None => false,
                        };
                        if same && occupied[right] && positions[left] > positions[right] {
                            proof {
                                lemma_crossings_bound(
                                    occupied@,
                                    table@,
                                    positions@,
                                    group,
                                    left as nat,
                                );
                                lemma_crossings_of_bound(
                                    occupied@,
                                    table@,
                                    positions@,
                                    group,
                                    left as int,
                                    right as int,
                                );
                                assert(left * sites + sites < u128::MAX) by (nonlinear_arith)
                                    requires
                                        left < sites,
                                        sites <= u64::MAX,
                                ;
                            }
                            let more: u128 = counts[group] + 1;
                            counts[group] = more;
                        }
                        right += 1;
                    }
                }
            },
            None => {},
        }
        proof {
            assert forall|g: int| 0 <= g < groups implies #[trigger] counts@[g] == crossings(
                occupied@,
                table@,
                positions@,
                g as usize,
                (left + 1) as nat,
            ) by {
                lemma_crossings_of_bound(
                    occupied@,
                    table@,
                    positions@,
                    g as usize,
                    left as int,
                    sites as int,
                );
                assert(before[g] == crossings(
                    occupied@,
                    table@,
                    positions@,
                    g as usize,
                    left as nat,
                ));
            }
        }
        left += 1;
    }
    counts
}

/// A phase taken some times.
pub open spec fn phase_power<P: PhaseFactor>(phase: P, count: nat) -> P
    decreases count,
{
    if count == 0 {
        P::spec_one()
    } else {
        phase_power(phase, (count - 1) as nat).spec_compose(phase)
    }
}

/// The phases of the first groups, each taken as often as its modes cross.
pub open spec fn exchange_phase_of<P: PhaseFactor>(
    groups: Seq<NoncommutingGroup<P>>,
    occupied: Seq<bool>,
    table: Seq<Option<usize>>,
    positions: Seq<usize>,
    count: nat,
) -> P
    decreases count,
{
    if count == 0 {
        P::spec_one()
    } else {
        let g = (count - 1) as nat;
        exchange_phase_of(groups, occupied, table, positions, g).spec_compose(
            phase_power(
                groups[g as int].spec_exchange_phase(),
                crossings(occupied, table, positions, g as usize, occupied.len()),
            ),
        )
    }
}

/// A phase taken some times.
fn raise_phase<P: PhaseFactor>(phase: P, count: u128) -> (power: P)
    ensures
        power == phase_power(phase, count as nat),
{
    let mut power: P = P::one();
    let mut done: u128 = 0;
    while done < count
        invariant
            done <= count,
            power == phase_power(phase, done as nat),
        decreases count - done,
    {
        power = power.compose(&phase);
        done += 1;
    }
    power
}

/// The phase that the crossings of a state add up to.
fn combine_phases<P: PhaseFactor>(
    groups: &Vec<NoncommutingGroup<P>>,
    occupied: &Vec<bool>,
    table: &Vec<Option<usize>>,
    positions: &Vec<usize>,
) -> (phase: P)
    requires
        table@.len() == occupied@.len(),
        positions@.len() == occupied@.len(),
        forall|i: int|
            0 <= i < table@.len() ==> (#[trigger] table@[i] is Some ==> table@[i]->0
                < groups@.len()),
    ensures
        phase == exchange_phase_of(groups@, occupied@, table@, positions@, groups@.len()),
{
    let counts: Vec<u128> = count_crossings(occupied, table, positions, groups.len());
    let mut phase: P = P::one();
    let mut next: usize = 0;
    while next < groups.len()
        invariant
            next <= groups@.len(),
            counts@.len() == groups@.len(),
            forall|g: int|
                0 <= g < groups@.len() ==> #[trigger] counts@[g] == crossings(
                    occupied@,
                    table@,
                    positions@,
                    g as usize,
                    occupied@.len(),
                ),
            phase == exchange_phase_of(groups@, occupied@, table@, positions@, next as nat),
        decreases groups@.len() - next,
    {
        let power: P = raise_phase(groups[next].exchange_phase(), counts[next]);
        phase = phase.compose(&power);
        next += 1;
    }
    phase
}

/// Occupied sites of a product state: those not in their lowest local state.
pub open spec fn product_occupancy(dimensions: Seq<usize>, global: nat) -> Seq<bool> {
    Seq::new(
        dimensions.len(),
        |site: int| subsystem::local_state(dimensions, global, site as nat) != 0,
    )
}

/// The exchange phase of one product state, for the regrouping with the given positions.
pub open spec fn product_phase<P: PhaseFactor>(
    dimensions: Seq<usize>,
    groups: Seq<NoncommutingGroup<P>>,
    table: Seq<Option<usize>>,
    positions: Seq<usize>,
    global: nat,
) -> P {
    exchange_phase_of(
        groups,
        product_occupancy(dimensions, global),
        table,
        positions,
        groups.len(),
    )
}

/// Whether a table and positions describe the regrouping of the sites.
pub open spec fn regroups<P: PhaseFactor>(
    sites: nat,
    retained: Seq<usize>,
    groups: Seq<NoncommutingGroup<P>>,
    table: Seq<Option<usize>>,
    positions: Seq<usize>,
) -> bool {
    &&& table.len() == sites
    &&& gives_groups(table, group_sites(groups), groups.len(), 0)
    &&& positions.len() == sites
    &&& forall|i: int|
        0 <= i < new_order(sites, retained).len() ==> positions[new_order(
            sites,
            retained,
        )[i] as int] == i
}

/// Phases that regrouped product states get.
pub open spec fn product_phases<P: PhaseFactor>(
    dimensions: Seq<usize>,
    retained: Seq<usize>,
    groups: Seq<NoncommutingGroup<P>>,
    phases: Seq<P>,
) -> bool {
    &&& phases.len() == subsystem::stride(dimensions, dimensions.len())
    &&& exists|table: Seq<Option<usize>>, positions: Seq<usize>|
        {
            &&& #[trigger] regroups(dimensions.len(), retained, groups, table, positions)
            &&& forall|state: int|
                0 <= state < phases.len() ==> #[trigger] phases[state] == product_phase(
                    dimensions,
                    groups,
                    table,
                    positions,
                    state as nat,
                )
        }
}

/// General exchange phases induced by regrouping disjoint binary-mode groups.
///
/// Each inversion inside a group contributes that group's unit-modulus phase.
/// Distinct groups and sites outside all groups commute.
pub fn noncommuting_subsystem_exchange_phases<P: PhaseFactor>(
    local_dimensions: &[usize],
    retained_sites: &[usize],
    noncommuting_groups: &Vec<NoncommutingGroup<P>>,
) -> (result: Result<Vec<P>>)
    ensures
        ({
            let dimensions = local_dimensions@;
            let retained = retained_sites@;
            let groups = noncommuting_groups@;
            let refusal = groups_error(
                dimensions.len(),
                Some(dimensions),
                group_sites(groups),
                groups.len(),
            );
            match result {
                Ok(phases) => {
                    &&& subsystem::split_error(dimensions, retained) is None
                    &&& refusal is None
                    &&& product_phases(dimensions, retained, groups, phases@)
                },
                Err(error) => if subsystem::split_error(dimensions, retained) is Some {
                    subsystem::split_error(dimensions, retained) == Some(error)
                } else {
                    refusal == Some(error)
                },
            }
        }),
{
    let ghost dimensions = local_dimensions@;
    let ghost retained = retained_sites@;
    let ghost groups = noncommuting_groups@;
    let sites: usize = local_dimensions.len();
    let layout: SubsystemIndexMap = match subsystem_index_map(local_dimensions, retained_sites) {
        Ok(layout) => layout,
        Err(error) => {
            return Err(error);
        },
    };
    let marks: Vec<bool> = match mark_retained(sites, retained_sites) {
        Ok(marks) => marks,
        Err(error) => {
            return Err(error);
        },
    };
    let environment: Vec<usize> = list_environment(&marks, Ghost(retained));
    proof {
        lemma_order_length(sites as nat, retained);
    }
    let positions: Vec<usize> = place_sites(sites, &environment, retained_sites);
    let table: Vec<Option<usize>> = match claim_groups(
        sites,
        Some(local_dimensions),
        noncommuting_groups,
    ) {
        Ok(table) => table,
        Err(error) => {
            return Err(error);
        },
    };
    assert(regroups(dimensions.len(), retained, groups, table@, positions@));
    proof {
        assert forall|i: int| 0 <= i < table@.len() implies (#[trigger] table@[i] is Some
            ==> table@[i]->0 < groups.len()) by {
        }
    }
    let mut phases: Vec<P> = Vec::new();
    let mut state: usize = 0;
    while state < layout.full_dimension
        invariant
            state <= layout.full_dimension,
            sites == local_dimensions@.len(),
            dimensions == local_dimensions@,
            groups == noncommuting_groups@,
            subsystem::all_positive(dimensions),
            table@.len() == sites,
            positions@.len() == sites,
            forall|i: int|
                0 <= i < table@.len() ==> (#[trigger] table@[i] is Some ==> table@[i]->0
                    < groups.len()),
            phases@.len() == state,
            forall|s: int|
                0 <= s < state ==> #[trigger] phases@[s] == product_phase(
                    dimensions,
                    groups,
                    table@,
                    positions@,
                    s as nat,
                ),
        decreases layout.full_dimension - state,
    {
        let mut value: usize = state;
        let mut occupied: Vec<bool> = Vec::new();
        let mut at: usize = 0;
        assert(state as nat / 1 == state);
        while at < sites
            invariant
                at <= sites,
                sites == dimensions.len(),
                dimensions == local_dimensions@,
                subsystem::all_positive(dimensions),
                value == state as nat / subsystem::stride(dimensions, at as nat),
                occupied@ == product_occupancy(dimensions, state as nat).take(at as int),
            decreases sites - at,
        {
            let dimension: usize = local_dimensions[at];
            proof {
                subsystem::lemma_stride_positive(dimensions, at as nat);
                assert(dimensions[at as int] > 0);
                lemma_div_denominator(
                    state as int,
                    subsystem::stride(dimensions, at as nat) as int,
                    dimension as int,
                );
            }
            occupied.push(value % dimension != 0);
            value = value / dimension;
            at += 1;
            assert(occupied@ =~= product_occupancy(dimensions, state as nat).take(at as int));
        }
        assert(occupied@ =~= product_occupancy(dimensions, state as nat));
        phases.push(combine_phases(noncommuting_groups, &occupied, &table, &positions));
        state += 1;
    }
    Ok(phases)
}

/// The new order is no longer than the sites.
proof fn lemma_order_length(sites: nat, retained: Seq<usize>)
    requires
        sites <= usize::MAX,
        subsystem::distinct_sites(sites, retained),
    ensures
        subsystem::environment_of(sites, retained).len() + retained.len() == sites,
{
    subsystem::lemma_environment(sites, retained);
    let environment = subsystem::environment_of(sites, retained);
    let order = environment + retained;
    assert forall|i: int, j: int| 0 <= i < order.len() && 0 <= j < order.len() && i
        != j implies order[i] != order[j] by {
        if i < environment.len() && j < environment.len() {
            assert(environment[i] != environment[j]);
        } else if i < environment.len() {
            assert(environment.contains(environment[i]));
            assert(retained.contains(retained[j - environment.len()]));
        } else if j < environment.len() {
            assert(environment.contains(environment[j]));
            assert(retained.contains(retained[i - environment.len()]));
        } else {
            assert(retained[i - environment.len()] != retained[j - environment.len()]);
        }
    }
    let numbers = order.map_values(|site: usize| site as int);
    let range = vstd::set_lib::set_int_range(0, sites as int);
    assert forall|i: int, j: int| 0 <= i < numbers.len() && 0 <= j < numbers.len() && i
        != j implies numbers[i] != numbers[j] by {
        assert(order[i] != order[j]);
    }
    numbers.unique_seq_to_set();
    vstd::set_lib::lemma_int_range(0, sites as int);
    assert(numbers.to_set() =~= range) by {
        assert forall|v: int| numbers.to_set().contains(v) <==> range.contains(v) by {
            if numbers.to_set().contains(v) {
                let i = numbers.index_of(v);
                assert(numbers[i] == v);
                if i < environment.len() {
                    assert(environment[i] < sites);
                } else {
                    assert(retained[i - environment.len()] < sites);
                }
            }
            if range.contains(v) {
                let site = v as usize;
                if retained.contains(site) {
                    let i = retained.index_of(site);
                    assert(order[environment.len() + i] == site);
                    assert(numbers[environment.len() + i] == v);
                } else {
                    assert(environment.contains(site));
                    let i = environment.index_of(site);
                    assert(order[i] == site);
                    assert(numbers[i] == v);
                }
            }
        }
    }
}

/// Crossings in the first groups together.
pub open spec fn all_crossings(
    occupied: Seq<bool>,
    table: Seq<Option<usize>>,
    positions: Seq<usize>,
    count: nat,
) -> nat
    decreases count,
{
    if count == 0 {
        0
    } else {
        all_crossings(occupied, table, positions, (count - 1) as nat) + crossings(
            occupied,
            table,
            positions,
            (count - 1) as usize,
            occupied.len(),
        )
    }
}

/// Half of the circle.
pub open spec fn half_turn() -> Turn {
    Turn { steps: 1, circle: 2 }
}

/// Halves and wholes of the circle add up by parity.
proof fn lemma_half_sum(left: Turn, right: Turn)
    requires
        left.circle == 1 && left.steps == 0 || left.circle == 2 && left.steps < 2,
        right.circle == 1 && right.steps == 0 || right.circle == 2 && right.steps < 2,
    ensures
        ({
            let sum = left.spec_compose(right);
            &&& sum.circle == 1 && sum.steps == 0 || sum.circle == 2 && sum.steps < 2
            &&& sum.steps == (left.steps + right.steps) % 2
        }),
{
    assert(permutation::gcd(1, 0) == 1);
    assert(permutation::gcd(2, 0) == 2);
    assert(permutation::gcd(1, 1) == 1);
    assert(permutation::gcd(2, 1) == 1);
    assert(permutation::gcd(1, 2) == 1);
    assert(permutation::gcd(2, 2) == 2);
    assert(permutation::lcm(1, 1) == 1);
    assert(permutation::lcm(1, 2) == 2);
    assert(permutation::lcm(2, 1) == 2);
    assert(permutation::lcm(2, 2) == 2);
    if left.circle == 1 {
        if right.circle == 1 {
        } else {
        }
    } else {
        if right.circle == 1 {
        } else {
        }
    }
}

proof fn lemma_half_power(count: nat)
    ensures
        ({
            let power = phase_power(half_turn(), count);
            &&& power.circle == 1 && power.steps == 0 || power.circle == 2 && power.steps < 2
            &&& power.steps == count % 2
        }),
    decreases count,
{
    if count > 0 {
        lemma_half_power((count - 1) as nat);
        lemma_half_sum(phase_power(half_turn(), (count - 1) as nat), half_turn());
    }
}

proof fn lemma_half_phases(
    groups: Seq<NoncommutingGroup<Turn>>,
    occupied: Seq<bool>,
    table: Seq<Option<usize>>,
    positions: Seq<usize>,
    count: nat,
)
    requires
        count <= groups.len(),
        forall|g: int| 0 <= g < groups.len() ==> (#[trigger] groups[g]).spec_exchange_phase()
            == half_turn(),
    ensures
        ({
            let phase = exchange_phase_of(groups, occupied, table, positions, count);
            &&& phase.circle == 1 && phase.steps == 0 || phase.circle == 2 && phase.steps < 2
            &&& phase.steps == all_crossings(occupied, table, positions, count) % 2
        }),
    decreases count,
{
    if count > 0 {
        let g = (count - 1) as nat;
        let more = crossings(occupied, table, positions, g as usize, occupied.len());
        lemma_half_phases(groups, occupied, table, positions, g);
        assert(groups[g as int].spec_exchange_phase() == half_turn());
        lemma_half_power(more);
        lemma_half_sum(
            exchange_phase_of(groups, occupied, table, positions, g),
            phase_power(half_turn(), more),
        );
    }
}

/// The sign of a number of exchanges.
pub open spec fn sign_of(exchanges: nat) -> i8 {
    if exchanges % 2 == 1 {
        -1i8
    } else {
        1i8
    }
}

/// Whether a table and positions describe the regrouping of plain groups of sites.
pub open spec fn regroups_sites(
    sites: nat,
    retained: Seq<usize>,
    groups: Seq<Seq<usize>>,
    table: Seq<Option<usize>>,
    positions: Seq<usize>,
) -> bool {
    &&& table.len() == sites
    &&& gives_groups(table, groups, groups.len(), 0)
    &&& positions.len() == sites
    &&& forall|i: int|
        0 <= i < new_order(sites, retained).len() ==> positions[new_order(
            sites,
            retained,
        )[i] as int] == i
}

/// Signs that regrouped product states get.
pub open spec fn product_signs(
    dimensions: Seq<usize>,
    retained: Seq<usize>,
    groups: Seq<Seq<usize>>,
    signs: Seq<i8>,
) -> bool {
    &&& signs.len() == subsystem::stride(dimensions, dimensions.len())
    &&& exists|table: Seq<Option<usize>>, positions: Seq<usize>|
        {
            &&& #[trigger] regroups_sites(dimensions.len(), retained, groups, table, positions)
            &&& forall|state: int|
                0 <= state < signs.len() ==> #[trigger] signs[state] == sign_of(
                    all_crossings(
                        product_occupancy(dimensions, state as nat),
                        table,
                        positions,
                        groups.len(),
                    ),
                )
        }
}

/// Lists of sites as mathematical sequences.
pub open spec fn site_lists(groups: Seq<Vec<usize>>) -> Seq<Seq<usize>> {
    Seq::new(groups.len(), |g: int| groups[g]@)
}

/// What the signs of a regrouping are, or why they are refused.
pub open spec fn signs_are(
    dimensions: Seq<usize>,
    retained: Seq<usize>,
    groups: Seq<Seq<usize>>,
    result: Result<Vec<i8>>,
) -> bool {
    let refusal = groups_error(dimensions.len(), Some(dimensions), groups, groups.len());
    match result {
        Ok(signs) => {
            &&& subsystem::split_error(dimensions, retained) is None
            &&& refusal is None
            &&& product_signs(dimensions, retained, groups, signs@)
        },
        Err(error) => if subsystem::split_error(dimensions, retained) is Some {
            subsystem::split_error(dimensions, retained) == Some(error)
        } else {
            refusal == Some(error)
        },
    }
}

/// Signs induced by regrouping a tensor product with selected mutually anticommuting
/// site groups.
///
/// Sites outside these groups commute, and so do distinct groups; occupied binary
/// sites inside the same group contribute one minus sign for every order inversion.
pub fn noncommuting_subsystem_phases(
    local_dimensions: &[usize],
    retained_sites: &[usize],
    noncommuting_groups: &[Vec<usize>],
) -> (result: Result<Vec<i8>>)
    ensures
        signs_are(
            local_dimensions@,
            retained_sites@,
            site_lists(noncommuting_groups@),
            result,
        ),
{
    let ghost dimensions = local_dimensions@;
    let ghost retained = retained_sites@;
    let ghost lists = site_lists(noncommuting_groups@);
    let mut groups: Vec<NoncommutingGroup<Turn>> = Vec::new();
    let mut next: usize = 0;
    while next < noncommuting_groups.len()
        invariant
            next <= noncommuting_groups@.len(),
            groups@.len() == next,
            forall|g: int|
                0 <= g < next ==> (#[trigger] groups@[g]).spec_sites()
                    == noncommuting_groups@[g]@ && groups@[g].spec_exchange_phase() == half_turn(),
        decreases noncommuting_groups@.len() - next,
    {
        match NoncommutingGroup::new(
            copy_list(&noncommuting_groups[next]),
            Turn { steps: 1, circle: 2 },
        ) {
            Ok(group) => {
                groups.push(group);
            },
            Err(error) => {
                return Err(error);
            },
        }
        next += 1;
    }
    assert(group_sites(groups@) =~= lists);
    let phases: Vec<Turn> = match noncommuting_subsystem_exchange_phases(
        local_dimensions,
        retained_sites,
        &groups,
    ) {
        Ok(phases) => phases,
        Err(error) => {
            return Err(error);
        },
    };
    let ghost witness = choose|table: Seq<Option<usize>>, positions: Seq<usize>|
        {
            &&& #[trigger] regroups(dimensions.len(), retained, groups@, table, positions)
            &&& forall|state: int|
                0 <= state < phases@.len() ==> #[trigger] phases@[state] == product_phase(
                    dimensions,
                    groups@,
                    table,
                    positions,
                    state as nat,
                )
        };
    let ghost table = witness.0;
    let ghost positions = witness.1;
    let mut signs: Vec<i8> = Vec::new();
    let mut state: usize = 0;
    while state < phases.len()
        invariant
            state <= phases@.len(),
            lists.len() == groups@.len(),
            forall|g: int|
                0 <= g < groups@.len() ==> (#[trigger] groups@[g]).spec_exchange_phase()
                    == half_turn(),
            forall|s: int|
                0 <= s < phases@.len() ==> #[trigger] phases@[s] == product_phase(
                    dimensions,
                    groups@,
                    table,
                    positions,
                    s as nat,
                ),
            signs@.len() == state,
            forall|s: int|
                0 <= s < state ==> #[trigger] signs@[s] == sign_of(
                    all_crossings(
                        product_occupancy(dimensions, s as nat),
                        table,
                        positions,
                        lists.len(),
                    ),
                ),
        decreases phases@.len() - state,
    {
        proof {
            assert(phases@[state as int] == product_phase(
                dimensions,
                groups@,
                table,
                positions,
                state as nat,
            ));
            lemma_half_phases(
                groups@,
                product_occupancy(dimensions, state as nat),
                table,
                positions,
                groups@.len(),
            );
        }
        signs.push(
            if phases[state].steps == 1 {
                -1
            } else {
                1
            },
        );
        state += 1;
    }
    assert(regroups_sites(dimensions.len(), retained, lists, table, positions));
    Ok(signs)
}

/// Every site in one group.
pub open spec fn all_sites(sites: nat) -> Seq<usize> {
    Seq::new(sites, |i: int| i as usize)
}

/// Fock-space signs induced by grouping selected fermionic modes into a
/// subsystem, indexed by the original packed state.
///
/// Modes inside the environment and subsystem keep the orders of the ordinary
/// subsystem layout; only the swaps needed to group the two factors contribute.
pub fn fermionic_subsystem_phases(local_dimensions: &[usize], retained_sites: &[usize]) -> (result:
    Result<Vec<i8>>)
    ensures
        signs_are(
            local_dimensions@,
            retained_sites@,
            seq![all_sites(local_dimensions@.len())],
            result,
        ),
{
    let mut sites: Vec<usize> = Vec::new();
    let mut next: usize = 0;
    while next < local_dimensions.len()
        invariant
            next <= local_dimensions@.len(),
            sites@ == all_sites(next as nat),
        decreases local_dimensions@.len() - next,
    {
        sites.push(next);
        next += 1;
        assert(sites@ =~= all_sites(next as nat));
    }
    let ghost list = sites@;
    let mut groups: Vec<Vec<usize>> = Vec::new();
    groups.push(sites);
    assert(site_lists(groups@) =~= seq![list]);
    noncommuting_subsystem_phases(local_dimensions, retained_sites, groups.as_slice())
}

/// States with numbered binary digits.
pub trait BinaryState: Bounded {
    /// Whether digits can be read.
    spec fn readable() -> bool;

    /// The digit of a site.
    spec fn spec_digit(self, site: usize) -> core::result::Result<bool, QmbedError>;

    /// The digit of a site.
    fn digit(&self, site: usize) -> (result: Result<bool>)
        requires
            Self::readable(),
        ensures
            result == self.spec_digit(site),
    ;
}

impl BinaryState for u128 {
    open spec fn readable() -> bool {
        true
    }

    open spec fn spec_digit(self, site: usize) -> core::result::Result<bool, QmbedError> {
        if site >= 128 {
            Err(QmbedError::InvalidSite { site, sites: 128 })
        } else {
            Ok(bits::bit_at(self as nat, site as nat))
        }
    }

    fn digit(&self, site: usize) -> (result: Result<bool>) {
        if site >= 128 {
            return Err(QmbedError::InvalidSite { site, sites: 128 });
        }
        Ok(test_bit(*self, site))
    }
}

impl<const WORDS: usize> BinaryState for WideState<WORDS> {
    open spec fn readable() -> bool {
        WORDS * 64 <= usize::MAX
    }

    open spec fn spec_digit(self, site: usize) -> core::result::Result<bool, QmbedError> {
        if site >= WORDS * 64 {
            Err(QmbedError::InvalidSite { site, sites: (WORDS * 64) as usize })
        } else {
            Ok(bits::bit_at(self.value(), site as nat))
        }
    }

    fn digit(&self, site: usize) -> (result: Result<bool>) {
        self.bit(site)
    }
}

impl BinaryState for ErasedState {
    open spec fn readable() -> bool {
        true
    }

    open spec fn spec_digit(self, site: usize) -> core::result::Result<bool, QmbedError> {
        if site >= self.class().capacity() {
            Err(QmbedError::InvalidSite { site, sites: self.class().capacity() as usize })
        } else {
            Ok(bits::bit_at(self.number(), site as nat))
        }
    }

    fn digit(&self, site: usize) -> (result: Result<bool>) {
        match self.stored() {
            ErasedStateValue::U128(word) => word.digit(site),
            ErasedStateValue::U256(word) => word.bit(site),
            ErasedStateValue::U1024(word) => word.bit(site),
            ErasedStateValue::U4096(word) => word.bit(site),
            ErasedStateValue::U16384(word) => word.bit(site),
        }
    }
}

/// The digits of some sites as a number, the first site counting least.
pub open spec fn digits_number<S: BinaryState>(state: S, list: Seq<usize>) -> nat
    decreases list.len(),
{
    if list.len() == 0 {
        0
    } else {
        digits_number(state, list.drop_last()) + if state.spec_digit(list.last()) == Ok::<
            bool,
            QmbedError,
        >(true) {
            pow2((list.len() - 1) as nat)
        } else {
            0
        }
    }
}

/// The first refusal among the digits of the first sites.
pub open spec fn digits_error<S: BinaryState>(state: S, list: Seq<usize>, count: nat) -> Option<
    QmbedError,
>
    decreases count,
{
    if count == 0 {
        None
    } else {
        match digits_error(state, list, (count - 1) as nat) {
            Some(error) => Some(error),
            None => match state.spec_digit(list[count - 1]) {
                Ok(_) => None,
                Err(error) => Some(error),
            },
        }
    }
}

proof fn lemma_digits_fail<S: BinaryState>(state: S, list: Seq<usize>, count: nat, later: nat)
    requires
        count <= later,
        digits_error(state, list, count) is Some,
    ensures
        digits_error(state, list, later) == digits_error(state, list, count),
    decreases later,
{
    if count < later {
        lemma_digits_fail(state, list, count, (later - 1) as nat);
    }
}

pub proof fn lemma_digits_bound<S: BinaryState>(state: S, list: Seq<usize>)
    ensures
        digits_number(state, list) < pow2(list.len()),
    decreases list.len(),
{
    lemma2_to64();
    if list.len() > 0 {
        lemma_digits_bound(state, list.drop_last());
        lemma_pow2_unfold(list.len());
    }
}

/// Occupied sites of a binary state.
pub open spec fn binary_occupancy<S: BinaryState>(state: S, sites: nat) -> Seq<bool> {
    Seq::new(sites, |site: int| state.spec_digit(site as usize) == Ok::<bool, QmbedError>(true))
}

/// How binary states split into a subsystem and its environment.
#[derive(Clone, Debug)]
pub struct BinarySectorSubsystemLayout {
    total_sites: usize,
    retained_sites: Vec<usize>,
    environment_sites: Vec<usize>,
    subsystem_dimension: usize,
    group_for_site: Vec<Option<usize>>,
    new_position: Vec<usize>,
}

/// Parts of a split binary state.
#[derive(Clone, Debug)]
pub struct SplitBinarySectorState<P> {
    /// Digits of the subsystem as a number.
    pub subsystem: usize,
    /// Digits of the environment, 64 to a word.
    pub environment: Vec<u64>,
    /// Phase of the regrouping.
    pub exchange_phase: P,
}

/// Why a layout is refused, if it is.
pub open spec fn layout_error(
    sites: usize,
    retained: Seq<usize>,
    groups: Seq<Seq<usize>>,
) -> Option<QmbedError> {
    let dimension = pow2(retained.len());
    if sites == 0 {
        Some(QmbedError::InvalidOptions(Reason::Text("a binary subsystem requires at least one site")))
    } else if subsystem::retained_error(sites as nat, retained, retained.len()) is Some {
        subsystem::retained_error(sites as nat, retained, retained.len())
    } else if retained.len() > u32::MAX {
        Some(QmbedError::DimensionMismatch(Reason::Text("retained subsystem is too large")))
    } else if dimension > usize::MAX {
        Some(
            QmbedError::DimensionMismatch(
                Reason::Text("retained subsystem is too large for a dense reduced density matrix"),
            ),
        )
    } else if dimension * dimension > usize::MAX {
        Some(QmbedError::DimensionMismatch(Reason::Text("reduced density-matrix allocation would overflow")))
    } else {
        groups_error(sites as nat, None, groups, groups.len())
    }
}

impl BinarySectorSubsystemLayout {
    pub closed spec fn spec_sites(&self) -> nat {
        self.total_sites as nat
    }

    pub closed spec fn spec_retained(&self) -> Seq<usize> {
        self.retained_sites@
    }

    pub closed spec fn spec_dimension(&self) -> usize {
        self.subsystem_dimension
    }

    pub closed spec fn spec_table(&self) -> Seq<Option<usize>> {
        self.group_for_site@
    }

    pub closed spec fn spec_positions(&self) -> Seq<usize> {
        self.new_position@
    }

    /// Sites that are not retained.
    pub open spec fn spec_environment(&self) -> Seq<usize> {
        subsystem::environment_of(self.spec_sites(), self.spec_retained())
    }

    /// Parts that go together, for the given groups.
    pub closed spec fn wf<P: PhaseFactor>(&self, groups: Seq<NoncommutingGroup<P>>) -> bool {
        &&& 0 < self.total_sites
        &&& subsystem::distinct_sites(self.total_sites as nat, self.retained_sites@)
        &&& self.environment_sites@ == self.spec_environment()
        &&& self.subsystem_dimension == pow2(self.retained_sites@.len())
        &&& regroups(
            self.total_sites as nat,
            self.retained_sites@,
            groups,
            self.group_for_site@,
            self.new_position@,
        )
    }

    /// Number of states of the subsystem.
    pub fn subsystem_dimension(&self) -> (dimension: usize)
        ensures
            dimension == self.spec_dimension(),
    {
        self.subsystem_dimension
    }
}

/// How binary states of `total_sites` sites split.
pub fn binary_sector_subsystem_layout<P: PhaseFactor>(
    total_sites: usize,
    retained_sites: &[usize],
    noncommuting_groups: &Vec<NoncommutingGroup<P>>,
) -> (result: Result<BinarySectorSubsystemLayout>)
    ensures
        ({
            let refusal = layout_error(
                total_sites,
                retained_sites@,
                group_sites(noncommuting_groups@),
            );
            match result {
                Ok(layout) => {
                    &&& refusal is None
                    &&& layout.wf(noncommuting_groups@)
                    &&& layout.spec_sites() == total_sites
                    &&& layout.spec_retained() == retained_sites@
                    &&& layout.spec_dimension() == pow2(retained_sites@.len())
                    &&& regroups(
                        total_sites as nat,
                        retained_sites@,
                        noncommuting_groups@,
                        layout.spec_table(),
                        layout.spec_positions(),
                    )
                },
                Err(error) => refusal == Some(error),
            }
        }),
{
    if total_sites == 0 {
        return Err(QmbedError::InvalidOptions(Reason::Text("a binary subsystem requires at least one site")));
    }
    let marks: Vec<bool> = match mark_retained(total_sites, retained_sites) {
        Ok(marks) => marks,
        Err(error) => {
            return Err(error);
        },
    };
    if retained_sites.len() as u128 > u32::MAX as u128 {
        return Err(QmbedError::DimensionMismatch(Reason::Text("retained subsystem is too large")));
    }
    let subsystem_dimension: usize = match checked_pow2(retained_sites.len()) {
        Some(dimension) => dimension,
        None => {
            return Err(
                QmbedError::DimensionMismatch(
                    Reason::Text("retained subsystem is too large for a dense reduced density matrix"),
                ),
            );
        },
    };
    if subsystem_dimension.checked_mul(subsystem_dimension).is_none() {
        return Err(
            QmbedError::DimensionMismatch(Reason::Text("reduced density-matrix allocation would overflow")),
        );
    }
    let environment_sites: Vec<usize> = list_environment(&marks, Ghost(retained_sites@));
    proof {
        lemma_order_length(total_sites as nat, retained_sites@);
    }
    let new_position: Vec<usize> = place_sites(total_sites, &environment_sites, retained_sites);
    let group_for_site: Vec<Option<usize>> = match claim_groups(
        total_sites,
        None,
        noncommuting_groups,
    ) {
        Ok(table) => table,
        Err(error) => {
            return Err(error);
        },
    };
    let kept: Vec<usize> = vstd::slice::slice_to_vec(retained_sites);
    Ok(
        BinarySectorSubsystemLayout {
            total_sites,
            retained_sites: kept,
            environment_sites,
            subsystem_dimension,
            group_for_site,
            new_position,
        },
    )
}

/// Whether parts are those of a state.
pub open spec fn splits_into<S: BinaryState, P: PhaseFactor>(
    state: S,
    layout: BinarySectorSubsystemLayout,
    groups: Seq<NoncommutingGroup<P>>,
    parts: SplitBinarySectorState<P>,
) -> bool {
    &&& parts.subsystem == digits_number(state, layout.spec_retained())
    &&& parts.environment@.len() == (layout.spec_environment().len() + 63) / 64
    &&& wide::value_of(parts.environment@) == digits_number(state, layout.spec_environment())
    &&& parts.exchange_phase == exchange_phase_of(
        groups,
        binary_occupancy(state, layout.spec_sites()),
        layout.spec_table(),
        layout.spec_positions(),
        groups.len(),
    )
}

/// Why a state cannot be split, if it cannot.
pub open spec fn split_state_error<S: BinaryState>(
    state: S,
    layout: BinarySectorSubsystemLayout,
) -> Option<QmbedError> {
    match digits_error(state, layout.spec_retained(), layout.spec_retained().len()) {
        Some(error) => Some(error),
        None => digits_error(state, layout.spec_environment(), layout.spec_environment().len()),
    }
}

/// Digits of some sites packed 64 to a word.
fn pack_digits<S: BinaryState>(state: S, list: &Vec<usize>) -> (result: Result<Vec<u64>>)
    requires
        S::readable(),
    ensures
        match result {
            Ok(words) => {
                &&& digits_error(state, list@, list@.len()) is None
                &&& words@.len() == (list@.len() + 63) / 64
                &&& wide::value_of(words@) == digits_number(state, list@)
            },
            Err(error) => digits_error(state, list@, list@.len()) == Some(error),
        },
{
    let length: usize = list.len() / 64 + if list.len() % 64 == 0 {
        0
    } else {
        1
    };
    let mut words: Vec<u64> = vec![0; length];
    proof {
        wide::lemma_zero_words(words@);
        assert(list@.take(0) =~= Seq::empty());
    }
    let mut next: usize = 0;
    while next < list.len()
        invariant
            next <= list@.len(),
            S::readable(),
            words@.len() == length,
            length == (list@.len() + 63) / 64,
            digits_error(state, list@, next as nat) is None,
            wide::value_of(words@) == digits_number(state, list@.take(next as int)),
        decreases list@.len() - next,
    {
        proof {
            assert(list@.take(next + 1).drop_last() =~= list@.take(next as int));
            lemma_digits_bound(state, list@.take(next as int));
        }
        match state.digit(list[next]) {
            Ok(set) => {
                if set {
                    let place: usize = next / 64;
                    let offset: u64 = (next % 64) as u64;
                    proof {
                        lemma_word_room(words@, next as nat);
                    }
                    let word: u64 = words[place] + (1u64 << offset);
                    let ghost before = words@;
                    words[place] = word;
                    proof {
                        wide::lemma_value_update(before, place as int, word);
                        let p = pow2((64 * place) as nat) as int;
                        lemma_pow2_adds((64 * place) as nat, offset as nat);
                        lemma_mul_is_commutative(p, pow2(offset as nat) as int);
                        assert(before.update(place as int, word) =~= words@);
                    }
                }
            },
            Err(error) => {
                proof {
                    lemma_digits_fail(state, list@, (next + 1) as nat, list@.len());
                }
                return Err(error);
            },
        }
        next += 1;
    }
    assert(list@.take(next as int) =~= list@);
    Ok(words)
}

/// A number below a power of two leaves room for the next digit in its word.
proof fn lemma_word_room(words: Seq<u64>, next: nat)
    requires
        next / 64 < words.len(),
        wide::value_of(words) < pow2(next),
    ensures
        ({
            let offset = (next % 64) as u64;
            &&& words[next as int / 64] < pow2(offset as nat)
            &&& 1u64 << offset == pow2(offset as nat)
            &&& words[next as int / 64] + pow2(offset as nat) <= u64::MAX
        }),
{
    let place = next as int / 64;
    let offset = (next % 64) as nat;
    let p = pow2((64 * place) as nat) as int;
    wide::lemma_word_at(words, place);
    lemma_pow2_adds((64 * place) as nat, offset);
    lemma_pow2_pos((64 * place) as nat);
    lemma_multiply_divide_lt(wide::value_of(words) as int, p, pow2(offset) as int);
    let above = wide::value_of(words.skip(place + 1)) as int;
    assert(pow2(64) * above >= 0) by (nonlinear_arith)
        requires
            above >= 0,
    ;
    lemma2_to64();
    vstd::bits::lemma_u64_pow2_no_overflow(offset);
    lemma_mul_basics(pow2(offset) as int);
    vstd::bits::lemma_u64_shl_is_mul(1, offset as u64);
    lemma_pow2_unfold(offset + 1);
    if offset + 1 < 64 {
        lemma_pow2_strictly_increases(offset + 1, 64);
    }
}

/// Splits one binary state.
pub fn split_binary_sector_state<S: BinaryState, P: PhaseFactor>(
    state: S,
    layout: &BinarySectorSubsystemLayout,
    noncommuting_groups: &Vec<NoncommutingGroup<P>>,
) -> (result: Result<SplitBinarySectorState<P>>)
    requires
        S::readable(),
        layout.wf(noncommuting_groups@),
    ensures
        match result {
            Ok(parts) => {
                &&& split_state_error(state, *layout) is None
                &&& splits_into(state, *layout, noncommuting_groups@, parts)
            },
            Err(error) => split_state_error(state, *layout) == Some(error),
        },
{
    let ghost retained = layout.retained_sites@;
    let mut subsystem_number: usize = 0;
    let mut width: usize = 1;
    let mut next: usize = 0;
    proof {
        lemma2_to64();
        assert(retained.take(0) =~= Seq::empty());
    }
    while next < layout.retained_sites.len()
        invariant
            next <= retained.len(),
            retained == layout.retained_sites@,
            S::readable(),
            layout.subsystem_dimension == pow2(retained.len()),
            digits_error(state, retained, next as nat) is None,
            subsystem_number == digits_number(state, retained.take(next as int)),
            width == pow2(next as nat),
        decreases retained.len() - next,
    {
        proof {
            assert(retained.take(next + 1).drop_last() =~= retained.take(next as int));
            lemma_digits_bound(state, retained.take(next as int));
            lemma_pow2_unfold((next + 1) as nat);
            if next + 1 < retained.len() {
                lemma_pow2_strictly_increases((next + 1) as nat, retained.len());
            }
        }
        match state.digit(layout.retained_sites[next]) {
            Ok(set) => {
                if set {
                    subsystem_number = subsystem_number + width;
                }
            },
            Err(error) => {
                proof {
                    lemma_digits_fail(state, retained, (next + 1) as nat, retained.len());
                }
                return Err(error);
            },
        }
        width = width * 2;
        next += 1;
    }
    assert(retained.take(next as int) =~= retained);
    let environment: Vec<u64> = match pack_digits(state, &layout.environment_sites) {
        Ok(words) => words,
        Err(error) => {
            return Err(error);
        },
    };
    let mut occupied: Vec<bool> = Vec::new();
    let mut site: usize = 0;
    let ghost sites = layout.total_sites as nat;
    while site < layout.total_sites
        invariant
            site <= layout.total_sites,
            sites == layout.total_sites,
            S::readable(),
            retained == layout.retained_sites@,
            layout.environment_sites@ == subsystem::environment_of(sites, retained),
            digits_error(state, retained, retained.len()) is None,
            digits_error(
                state,
                layout.environment_sites@,
                layout.environment_sites@.len(),
            ) is None,
            occupied@ == binary_occupancy(state, sites).take(site as int),
        decreases layout.total_sites - site,
    {
        proof {
            subsystem::lemma_environment(sites, retained);
            if retained.contains(site) {
                lemma_digits_readable(state, retained, retained.index_of(site), retained.len());
            } else {
                let outer = layout.environment_sites@;
                assert(outer.contains(site));
                lemma_digits_readable(state, outer, outer.index_of(site), outer.len());
            }
        }
        match state.digit(site) {
            Ok(set) => {
                occupied.push(set);
            },
            Err(error) => {
                return Err(error);
            },
        }
        site += 1;
        assert(occupied@ =~= binary_occupancy(state, sites).take(site as int));
    }
    assert(occupied@ =~= binary_occupancy(state, sites));
    proof {
        assert forall|i: int| 0 <= i < layout.group_for_site@.len() implies (
        #[trigger] layout.group_for_site@[i] is Some ==> layout.group_for_site@[i]->0
            < noncommuting_groups@.len()) by {
        }
    }
    let exchange_phase: P = combine_phases(
        noncommuting_groups,
        &occupied,
        &layout.group_for_site,
        &layout.new_position,
    );
    Ok(SplitBinarySectorState { subsystem: subsystem_number, environment, exchange_phase })
}

/// Digits that were read can be read again.
proof fn lemma_digits_readable<S: BinaryState>(state: S, list: Seq<usize>, place: int, count: nat)
    requires
        0 <= place < count <= list.len(),
        digits_error(state, list, count) is None,
    ensures
        state.spec_digit(list[place]) is Ok,
    decreases count,
{
    if place < count - 1 {
        lemma_digits_readable(state, list, place, (count - 1) as nat);
    }
}

/// The first refusal among the first states: a state that was there before, or one that
/// cannot be split.
pub open spec fn states_error<S: BinaryState>(
    states: Seq<S>,
    layout: BinarySectorSubsystemLayout,
    count: nat,
) -> Option<QmbedError>
    decreases count,
{
    if count == 0 {
        None
    } else {
        match states_error(states, layout, (count - 1) as nat) {
            Some(error) => Some(error),
            None => if states.take(count - 1).contains(states[count - 1]) {
                Some(QmbedError::InvalidOptions(Reason::Text("sector basis states must be unique")))
            } else {
                split_state_error(states[count - 1], layout)
            },
        }
    }
}

proof fn lemma_states_fail<S: BinaryState>(
    states: Seq<S>,
    layout: BinarySectorSubsystemLayout,
    count: nat,
    later: nat,
)
    requires
        count <= later,
        states_error(states, layout, count) is Some,
    ensures
        states_error(states, layout, later) == states_error(states, layout, count),
    decreases later,
{
    if count < later {
        lemma_states_fail(states, layout, count, (later - 1) as nat);
    }
}

/// Splits the states of a sector basis, each of which may occur once.
pub fn split_binary_sector_states<S: BinaryState, P: PhaseFactor>(
    states: &[S],
    layout: &BinarySectorSubsystemLayout,
    noncommuting_groups: &Vec<NoncommutingGroup<P>>,
) -> (result: Result<Vec<SplitBinarySectorState<P>>>)
    requires
        S::readable(),
        layout.wf(noncommuting_groups@),
    ensures
        match result {
            Ok(parts) => {
                &&& states_error(states@, *layout, states@.len()) is None
                &&& parts@.len() == states@.len()
                &&& forall|i: int|
                    0 <= i < parts@.len() ==> splits_into(
                        states@[i],
                        *layout,
                        noncommuting_groups@,
                        #[trigger] parts@[i],
                    )
            },
            Err(error) => states_error(states@, *layout, states@.len()) == Some(error),
        },
{
    let mut seen: StateTable<S, bool> = StateTable::new();
    let mut parts: Vec<SplitBinarySectorState<P>> = Vec::new();
    let mut next: usize = 0;
    while next < states.len()
        invariant
            next <= states@.len(),
            S::readable(),
            layout.wf(noncommuting_groups@),
            states_error(states@, *layout, next as nat) is None,
            seen.wf(),
            forall|state: S|
                (#[trigger] seen.entry(state) is Some) == states@.take(next as int).contains(state),
            parts@.len() == next,
            forall|i: int|
                0 <= i < next ==> splits_into(
                    states@[i],
                    *layout,
                    noncommuting_groups@,
                    #[trigger] parts@[i],
                ),
        decreases states@.len() - next,
    {
        let state: S = states[next];
        let ghost known = states@.take(next as int);
        if seen.get(state).is_some() {
            proof {
                lemma_states_fail(states@, *layout, (next + 1) as nat, states@.len());
            }
            return Err(QmbedError::InvalidOptions(Reason::Text("sector basis states must be unique")));
        }
        match split_binary_sector_state(state, layout, noncommuting_groups) {
            Ok(split) => {
                parts.push(split);
            },
            Err(error) => {
                proof {
                    lemma_states_fail(states@, *layout, (next + 1) as nat, states@.len());
                }
                return Err(error);
            },
        }
        seen.insert(state, true);
        next += 1;
        proof {
            let more = states@.take(next as int);
            assert forall|other: S| (#[trigger] seen.entry(other) is Some) == more.contains(
                other,
            ) by {
                if other == state {
                    assert(more[next - 1] == other);
                } else if more.contains(other) {
                    let i = more.index_of(other);
                    assert(known[i] == other);
                } else if known.contains(other) {
                    let i = known.index_of(other);
                    assert(more[i] == other);
                }
            }
        }
    }
    Ok(parts)
}

} // verus!

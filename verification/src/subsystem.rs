//! Splitting a lattice into a subsystem and its environment.

use vstd::arithmetic::div_mod::*;
use vstd::arithmetic::mul::*;
use vstd::prelude::*;

use crate::error::{QmbedError, Reason, Result};

verus! {

/// Sites that are not retained, in ascending order.
pub open spec fn environment_of(sites: nat, retained: Seq<usize>) -> Seq<usize>
    decreases sites,
{
    if sites == 0 {
        Seq::empty()
    } else {
        let site = (sites - 1) as usize;
        let before = environment_of((sites - 1) as nat, retained);
        if retained.contains(site) {
            before
        } else {
            before.push(site)
        }
    }
}

/// Why the first retained sites are refused, if they are.
pub open spec fn retained_error(sites: nat, retained: Seq<usize>, count: nat) -> Option<QmbedError>
    decreases count,
{
    if count == 0 {
        None
    } else {
        let last = (count - 1) as nat;
        let site = retained[last as int];
        match retained_error(sites, retained, last) {
            Some(error) => Some(error),
            None => if site >= sites {
                Some(QmbedError::InvalidSite { site, sites: sites as usize })
            } else if retained.take(last as int).contains(site) {
                Some(QmbedError::InvalidOptions(Reason::Text("retained subsystem sites must be unique")))
            } else {
                None
            },
        }
    }
}

/// Sites in range, none of them twice.
pub open spec fn distinct_sites(sites: nat, list: Seq<usize>) -> bool {
    &&& list.no_duplicates()
    &&& forall|i: int| 0 <= i < list.len() ==> #[trigger] list[i] < sites
}

/// Accepted sites are distinct.
pub proof fn lemma_retained(sites: nat, retained: Seq<usize>, count: nat)
    requires
        count <= retained.len(),
        retained_error(sites, retained, count) is None,
    ensures
        distinct_sites(sites, retained.take(count as int)),
    decreases count,
{
    if count > 0 {
        let last = (count - 1) as nat;
        lemma_retained(sites, retained, last);
        let before = retained.take(last as int);
        let list = retained.take(count as int);
        assert forall|i: int, j: int| 0 <= i < list.len() && 0 <= j < list.len() && i
            != j implies list[i] != list[j] by {
            if i < last && j < last {
                assert(before[i] != before[j]);
            } else if i < last {
                assert(before.contains(before[i]));
            } else {
                assert(before.contains(before[j]));
            }
        }
        assert forall|i: int| 0 <= i < list.len() implies #[trigger] list[i] < sites by {
            if i < last {
                assert(before[i] < sites);
            }
        }
    }
}

/// A refused site ends the walk over the retained sites.
proof fn lemma_retained_fails(sites: nat, retained: Seq<usize>, count: nat, later: nat)
    requires
        count <= later,
        retained_error(sites, retained, count) is Some,
    ensures
        retained_error(sites, retained, later) == retained_error(sites, retained, count),
    decreases later,
{
    if count < later {
        lemma_retained_fails(sites, retained, count, (later - 1) as nat);
    }
}

/// Marks the retained sites.
pub(crate) fn mark_retained(sites: usize, retained: &[usize]) -> (result: Result<Vec<bool>>)
    ensures
        match result {
            Ok(marks) => {
                &&& retained_error(sites as nat, retained@, retained@.len()) is None
                &&& distinct_sites(sites as nat, retained@)
                &&& marks@.len() == sites
                &&& forall|site: int|
                    0 <= site < sites ==> #[trigger] marks@[site] == retained@.contains(
                        site as usize,
                    )
            },
            Err(error) => retained_error(sites as nat, retained@, retained@.len()) == Some(error),
        },
{
    let mut marks: Vec<bool> = vec![false; sites];
    let mut next: usize = 0;
    assert(retained@.take(0) =~= Seq::empty());
    while next < retained.len()
        invariant
            next <= retained@.len(),
            marks@.len() == sites,
            retained_error(sites as nat, retained@, next as nat) is None,
            forall|site: int|
                0 <= site < sites ==> #[trigger] marks@[site] == retained@.take(
                    next as int,
                ).contains(site as usize),
        decreases retained@.len() - next,
    {
        let site: usize = retained[next];
        if site >= sites {
            proof {
                lemma_retained_fails(
                    sites as nat,
                    retained@,
                    (next + 1) as nat,
                    retained@.len(),
                );
            }
            return Err(QmbedError::InvalidSite { site, sites });
        }
        if marks[site] {
            proof {
                lemma_retained_fails(
                    sites as nat,
                    retained@,
                    (next + 1) as nat,
                    retained@.len(),
                );
            }
            return Err(QmbedError::InvalidOptions(Reason::Text("retained subsystem sites must be unique")));
        }
        let ghost before = marks@;
        marks[site] = true;
        proof {
            let part = retained@.take(next as int);
            let more = retained@.take(next + 1);
            assert(more =~= part.push(site));
            assert forall|s: int| 0 <= s < sites implies #[trigger] marks@[s] == more.contains(
                s as usize,
            ) by {
                if s == site {
                    assert(more[next as int] == site);
                } else {
                    assert(marks@[s] == before[s]);
                    if more.contains(s as usize) {
                        let i = more.index_of(s as usize);
                        assert(part[i] == s);
                    }
                    if part.contains(s as usize) {
                        let i = part.index_of(s as usize);
                        assert(more[i] == s);
                    }
                }
            }
        }
        next += 1;
    }
    proof {
        assert(retained@.take(next as int) =~= retained@);
        lemma_retained(sites as nat, retained@, retained@.len());
    }
    Ok(marks)
}

/// The sites that are not marked, in ascending order.
pub(crate) fn list_environment(marks: &Vec<bool>, Ghost(retained): Ghost<Seq<usize>>) -> (list: Vec<
    usize,
>)
    requires
        forall|site: int|
            0 <= site < marks@.len() ==> #[trigger] marks@[site] == retained.contains(
                site as usize,
            ),
    ensures
        list@ == environment_of(marks@.len(), retained),
{
    let mut list: Vec<usize> = Vec::new();
    let mut site: usize = 0;
    while site < marks.len()
        invariant
            site <= marks@.len(),
            forall|s: int|
                0 <= s < marks@.len() ==> #[trigger] marks@[s] == retained.contains(s as usize),
            list@ == environment_of(site as nat, retained),
        decreases marks@.len() - site,
    {
        if !marks[site] {
            list.push(site);
        }
        site += 1;
    }
    list
}

/// Environment sites are distinct, and are the sites that are not retained.
pub proof fn lemma_environment(sites: nat, retained: Seq<usize>)
    requires
        sites <= usize::MAX,
    ensures
        distinct_sites(sites, environment_of(sites, retained)),
        forall|site: usize| #[trigger]
            environment_of(sites, retained).contains(site) <==> site < sites
                && !retained.contains(site),
    decreases sites,
{
    if sites > 0 {
        let last = (sites - 1) as usize;
        let before = environment_of((sites - 1) as nat, retained);
        let list = environment_of(sites, retained);
        lemma_environment((sites - 1) as nat, retained);
        assert forall|site: usize| #[trigger] list.contains(site) <==> site < sites
            && !retained.contains(site) by {
            assert(before.contains(site) <==> site < sites - 1 && !retained.contains(site));
            if list.contains(site) {
                let i = list.index_of(site);
                if i < before.len() {
                    assert(before[i] == site);
                }
            }
            if before.contains(site) {
                let i = before.index_of(site);
                assert(list[i] == site);
            }
            if site == last && !retained.contains(site) {
                assert(list[before.len() as int] == site);
            }
        }
        assert forall|i: int| 0 <= i < list.len() implies #[trigger] list[i] < sites by {
            if i < before.len() {
                assert(before[i] < sites - 1);
            }
        }
        assert forall|i: int, j: int| 0 <= i < list.len() && 0 <= j < list.len() && i
            != j implies list[i] != list[j] by {
            if i < before.len() && j < before.len() {
                assert(before[i] != before[j]);
            } else if i < before.len() {
                assert(before[i] < sites - 1);
            } else {
                assert(before[j] < sites - 1);
            }
        }
    }
}

/// Product of the local dimensions of some sites.
pub open spec fn product_over(dimensions: Seq<usize>, list: Seq<usize>) -> nat
    decreases list.len(),
{
    if list.len() == 0 {
        1
    } else {
        product_over(dimensions, list.drop_last()) * dimensions[list.last() as int] as nat
    }
}

/// Product of the first local dimensions.
pub open spec fn stride(dimensions: Seq<usize>, site: nat) -> nat
    decreases site,
{
    if site == 0 {
        1
    } else {
        stride(dimensions, (site - 1) as nat) * dimensions[site - 1] as nat
    }
}

/// Local state of a site in a product state.
pub open spec fn local_state(dimensions: Seq<usize>, global: nat, site: nat) -> nat {
    (global / stride(dimensions, site)) % dimensions[site as int] as nat
}

/// Number of the local states of some sites, the first site counting fastest.
pub open spec fn gathered(dimensions: Seq<usize>, list: Seq<usize>, global: nat) -> nat
    decreases list.len(),
{
    if list.len() == 0 {
        0
    } else {
        gathered(dimensions, list.drop_last(), global) + local_state(
            dimensions,
            global,
            list.last() as nat,
        ) * product_over(dimensions, list.drop_last())
    }
}

/// No local dimension is zero.
pub open spec fn all_positive(dimensions: Seq<usize>) -> bool {
    forall|i: int| 0 <= i < dimensions.len() ==> #[trigger] dimensions[i] > 0
}

/// Prefixes have smaller products.
proof fn lemma_product_prefix(dimensions: Seq<usize>, list: Seq<usize>, count: int)
    requires
        all_positive(dimensions),
        distinct_sites(dimensions.len(), list) || forall|i: int|
            0 <= i < list.len() ==> #[trigger] list[i] < dimensions.len(),
        0 <= count <= list.len(),
    ensures
        0 < product_over(dimensions, list.take(count)) <= product_over(dimensions, list),
    decreases list.len() - count, list.len(),
{
    if count == list.len() {
        assert(list.take(count) =~= list);
        if list.len() > 0 {
            let rest = list.drop_last();
            assert forall|i: int| 0 <= i < rest.len() implies #[trigger] rest[i]
                < dimensions.len() by {
                assert(list[i] < dimensions.len());
            }
            lemma_product_prefix(dimensions, rest, rest.len() as int);
            assert(rest.take(rest.len() as int) =~= rest);
            assert(list[list.len() - 1] < dimensions.len());
            lemma_mul_strictly_positive(
                product_over(dimensions, rest) as int,
                dimensions[list.last() as int] as int,
            );
        }
    } else {
        lemma_product_prefix(dimensions, list, count + 1);
        let more = list.take(count + 1);
        assert(more.drop_last() =~= list.take(count));
        assert(list[count] < dimensions.len());
        let p = product_over(dimensions, list.take(count)) as int;
        let d = dimensions[more.last() as int] as int;
        assert(p * d > 0 && d > 0 ==> 0 < p <= p * d) by (nonlinear_arith);
    }
}

/// The product of some local dimensions, unless it does not fit.
fn checked_product(dimensions: &[usize], list: &[usize]) -> (result: Option<usize>)
    requires
        all_positive(dimensions@),
        forall|i: int| 0 <= i < list@.len() ==> #[trigger] list@[i] < dimensions@.len(),
    ensures
        match result {
            Some(product) => product == product_over(dimensions@, list@) && product > 0,
            None => product_over(dimensions@, list@) > usize::MAX,
        },
{
    let mut product: usize = 1;
    let mut next: usize = 0;
    assert(list@.take(0) =~= Seq::empty());
    while next < list.len()
        invariant
            next <= list@.len(),
            all_positive(dimensions@),
            forall|i: int| 0 <= i < list@.len() ==> #[trigger] list@[i] < dimensions@.len(),
            product == product_over(dimensions@, list@.take(next as int)),
        decreases list@.len() - next,
    {
        proof {
            assert(list@.take(next + 1).drop_last() =~= list@.take(next as int));
            lemma_product_prefix(dimensions@, list@, next + 1);
        }
        match product.checked_mul(dimensions[list[next]]) {
            Some(value) => {
                product = value;
            },
            None => {
                return None;
            },
        }
        next += 1;
    }
    proof {
        lemma_product_prefix(dimensions@, list@, list@.len() as int);
        assert(list@.take(next as int) =~= list@);
    }
    Some(product)
}

/// Taking one site out of a product.
proof fn lemma_product_remove(dimensions: Seq<usize>, list: Seq<usize>, place: int)
    requires
        0 <= place < list.len(),
    ensures
        product_over(dimensions, list) == product_over(dimensions, list.remove(place))
            * dimensions[list[place] as int] as nat,
    decreases list.len(),
{
    let rest = list.drop_last();
    if place == list.len() - 1 {
        assert(list.remove(place) =~= rest);
    } else {
        lemma_product_remove(dimensions, rest, place);
        let shorter = list.remove(place);
        assert(shorter.drop_last() =~= rest.remove(place));
        assert(shorter.last() == list.last());
        let a = product_over(dimensions, rest.remove(place)) as int;
        let b = dimensions[list[place] as int] as int;
        let c = dimensions[list.last() as int] as int;
        assert((a * b) * c == (a * c) * b) by (nonlinear_arith);
    }
}

/// The environment depends on which sites are retained only.
pub proof fn lemma_same_environment(sites: nat, left: Seq<usize>, right: Seq<usize>)
    requires
        sites <= usize::MAX,
        forall|site: usize|
            site < sites ==> (#[trigger] left.contains(site) <==> right.contains(site)),
    ensures
        environment_of(sites, left) == environment_of(sites, right),
    decreases sites,
{
    if sites > 0 {
        lemma_same_environment((sites - 1) as nat, left, right);
        assert(left.contains((sites - 1) as usize) <==> right.contains((sites - 1) as usize));
    }
}

/// Subsystem and environment together have as many states as the whole.
pub proof fn law_parts_make_the_whole(dimensions: Seq<usize>, sites: nat, retained: Seq<usize>)
    requires
        sites <= dimensions.len() <= usize::MAX,
        distinct_sites(sites, retained),
    ensures
        product_over(dimensions, retained) * product_over(
            dimensions,
            environment_of(sites, retained),
        ) == stride(dimensions, sites),
    decreases sites,
{
    if sites == 0 {
        if retained.len() > 0 {
            assert(retained[0] < 0);
        }
        assert(product_over(dimensions, retained) == 1);
        assert(product_over(dimensions, environment_of(sites, retained)) == 1);
    } else {
        let less = (sites - 1) as nat;
        let site = less as usize;
        let d = dimensions[site as int] as int;
        if retained.contains(site) {
            let place = retained.index_of(site);
            let rest = retained.remove(place);
            lemma_product_remove(dimensions, retained, place);
            assert forall|i: int| 0 <= i < rest.len() implies #[trigger] rest[i] < less by {
                if i < place {
                    assert(retained[i] < sites && retained[i] != site);
                } else {
                    assert(retained[i + 1] < sites && retained[i + 1] != site);
                }
            }
            assert forall|i: int, j: int| 0 <= i < rest.len() && 0 <= j < rest.len() && i
                != j implies rest[i] != rest[j] by {
                let a = if i < place {
                    i
                } else {
                    i + 1
                };
                let b = if j < place {
                    j
                } else {
                    j + 1
                };
                assert(retained[a] != retained[b]);
            }
            law_parts_make_the_whole(dimensions, less, rest);
            assert forall|s: usize| s < less implies (#[trigger] retained.contains(
                s,
            ) <==> rest.contains(s)) by {
                if retained.contains(s) {
                    let i = retained.index_of(s);
                    if i < place {
                        assert(rest[i] == s);
                    } else {
                        assert(rest[i - 1] == s);
                    }
                }
                if rest.contains(s) {
                    let i = rest.index_of(s);
                    if i < place {
                        assert(retained[i] == s);
                    } else {
                        assert(retained[i + 1] == s);
                    }
                }
            }
            lemma_same_environment(less, retained, rest);
            let a = product_over(dimensions, rest) as int;
            let e = product_over(dimensions, environment_of(less, rest)) as int;
            let whole = stride(dimensions, less) as int;
            assert(environment_of(sites, retained) == environment_of(less, rest));
            assert(stride(dimensions, sites) == whole * d);
            assert(product_over(dimensions, retained) == a * d);
            assert((a * d) * e == whole * d) by (nonlinear_arith)
                requires
                    a * e == whole,
            ;
        } else {
            assert forall|i: int| 0 <= i < retained.len() implies #[trigger] retained[i] < less by {
                assert(retained.contains(retained[i]));
            }
            law_parts_make_the_whole(dimensions, less, retained);
            let before = environment_of(less, retained);
            let list = environment_of(sites, retained);
            assert(list.drop_last() =~= before);
            let a = product_over(dimensions, retained) as int;
            let e = product_over(dimensions, before) as int;
            let whole = stride(dimensions, less) as int;
            assert(list == before.push(site));
            assert(product_over(dimensions, list) == e * d);
            assert(stride(dimensions, sites) == whole * d);
            assert(a * (e * d) == whole * d) by (nonlinear_arith)
                requires
                    a * e == whole,
            ;
        }
    }
}

/// Numbers of gathered local states stay below the product.
proof fn lemma_gathered_bound(dimensions: Seq<usize>, list: Seq<usize>, global: nat)
    requires
        all_positive(dimensions),
        forall|i: int| 0 <= i < list.len() ==> #[trigger] list[i] < dimensions.len(),
    ensures
        gathered(dimensions, list, global) < product_over(dimensions, list),
    decreases list.len(),
{
    if list.len() > 0 {
        let rest = list.drop_last();
        assert forall|i: int| 0 <= i < rest.len() implies #[trigger] rest[i] < dimensions.len() by {
            assert(list[i] < dimensions.len());
        }
        assert(list[list.len() - 1] < dimensions.len());
        lemma_gathered_bound(dimensions, rest, global);
        let d = dimensions[list.last() as int] as int;
        let v = local_state(dimensions, global, list.last() as nat) as int;
        let p = product_over(dimensions, rest) as int;
        let low = gathered(dimensions, rest, global) as int;
        lemma_mod_bound((global / stride(dimensions, list.last() as nat)) as int, d);
        assert(low + v * p < (v + 1) * p) by (nonlinear_arith)
            requires
                low < p,
        ;
        assert((v + 1) * p <= p * d) by (nonlinear_arith)
            requires
                v + 1 <= d,
                0 < p,
        ;
    }
}

/// The number of gathered local states tells the local states.
proof fn lemma_gathered_identifies(
    dimensions: Seq<usize>,
    list: Seq<usize>,
    left: nat,
    right: nat,
    place: int,
)
    requires
        all_positive(dimensions),
        forall|i: int| 0 <= i < list.len() ==> #[trigger] list[i] < dimensions.len(),
        gathered(dimensions, list, left) == gathered(dimensions, list, right),
        0 <= place < list.len(),
    ensures
        local_state(dimensions, left, list[place] as nat) == local_state(
            dimensions,
            right,
            list[place] as nat,
        ),
    decreases list.len(),
{
    let rest = list.drop_last();
    assert forall|i: int| 0 <= i < rest.len() implies #[trigger] rest[i] < dimensions.len() by {
        assert(list[i] < dimensions.len());
    }
    lemma_gathered_bound(dimensions, rest, left);
    lemma_gathered_bound(dimensions, rest, right);
    let p = product_over(dimensions, rest) as int;
    let a = gathered(dimensions, rest, left) as int;
    let b = gathered(dimensions, rest, right) as int;
    let u = local_state(dimensions, left, list.last() as nat) as int;
    let v = local_state(dimensions, right, list.last() as nat) as int;
    lemma_fundamental_div_mod_converse(u * p + a, p, u, a);
    lemma_fundamental_div_mod_converse(v * p + b, p, v, b);
    if place < rest.len() {
        lemma_gathered_identifies(dimensions, rest, left, right, place);
        assert(rest[place] == list[place]);
    }
}

/// Strides are positive.
pub proof fn lemma_stride_positive(dimensions: Seq<usize>, site: nat)
    requires
        all_positive(dimensions),
        site <= dimensions.len(),
    ensures
        stride(dimensions, site) > 0,
    decreases site,
{
    if site > 0 {
        lemma_stride_positive(dimensions, (site - 1) as nat);
        assert(dimensions[site - 1] > 0);
        lemma_mul_strictly_positive(
            stride(dimensions, (site - 1) as nat) as int,
            dimensions[site - 1] as int,
        );
    }
}

/// Product states are known by their local states.
proof fn lemma_locals_identify(dimensions: Seq<usize>, left: nat, right: nat, sites: nat)
    requires
        all_positive(dimensions),
        sites <= dimensions.len(),
        forall|site: nat|
            site < sites ==> #[trigger] local_state(dimensions, left, site) == local_state(
                dimensions,
                right,
                site,
            ),
    ensures
        left % stride(dimensions, sites) == right % stride(dimensions, sites),
    decreases sites,
{
    if sites > 0 {
        let s = (sites - 1) as nat;
        let p = stride(dimensions, s) as int;
        let d = dimensions[s as int] as int;
        lemma_locals_identify(dimensions, left, right, s);
        lemma_stride_positive(dimensions, s);
        assert(dimensions[s as int] > 0);
        lemma_mod_breakdown(left as int, p, d);
        lemma_mod_breakdown(right as int, p, d);
        assert(local_state(dimensions, left, s) == local_state(dimensions, right, s));
    } else {
        assert(left % 1 == 0 && right % 1 == 0);
    }
}

/// A split loses nothing: product states with the same subsystem part and the same
/// environment part are the same state.
pub proof fn law_split_is_one_to_one(
    dimensions: Seq<usize>,
    retained: Seq<usize>,
    left: nat,
    right: nat,
)
    requires
        all_positive(dimensions),
        dimensions.len() <= usize::MAX,
        distinct_sites(dimensions.len(), retained),
        left < stride(dimensions, dimensions.len()),
        right < stride(dimensions, dimensions.len()),
        gathered(dimensions, retained, left) == gathered(dimensions, retained, right),
        gathered(dimensions, environment_of(dimensions.len(), retained), left) == gathered(
            dimensions,
            environment_of(dimensions.len(), retained),
            right,
        ),
    ensures
        left == right,
{
    let sites = dimensions.len();
    let environment = environment_of(sites, retained);
    lemma_environment(sites, retained);
    assert forall|site: nat| site < sites implies #[trigger] local_state(dimensions, left, site)
        == local_state(dimensions, right, site) by {
        let s = site as usize;
        if retained.contains(s) {
            lemma_gathered_identifies(dimensions, retained, left, right, retained.index_of(s));
        } else {
            assert(environment.contains(s));
            lemma_gathered_identifies(
                dimensions,
                environment,
                left,
                right,
                environment.index_of(s),
            );
        }
    }
    lemma_locals_identify(dimensions, left, right, sites);
    lemma_small_mod(left, stride(dimensions, sites));
    lemma_small_mod(right, stride(dimensions, sites));
}

/// How product states split into a subsystem and its environment.
#[derive(Clone, Debug)]
pub struct SubsystemIndexMap {
    /// Number of product states.
    pub full_dimension: usize,
    /// Number of states of the subsystem.
    pub subsystem_dimension: usize,
    /// Number of states of the environment.
    pub environment_dimension: usize,
    /// Subsystem part of every product state.
    pub subsystem_indices: Vec<usize>,
    /// Environment part of every product state.
    pub environment_indices: Vec<usize>,
}

/// Why a split is refused, if it is.
pub open spec fn split_error(dimensions: Seq<usize>, retained: Seq<usize>) -> Option<QmbedError> {
    let sites = dimensions.len();
    let inner = product_over(dimensions, retained);
    let outer = product_over(dimensions, environment_of(sites, retained));
    if sites == 0 || !all_positive(dimensions) {
        Some(
            QmbedError::InvalidOptions(
                Reason::Text("local dimensions must be a nonempty list of positive values"),
            ),
        )
    } else if retained_error(sites, retained, retained.len()) is Some {
        retained_error(sites, retained, retained.len())
    } else if inner > usize::MAX || outer > usize::MAX || inner * outer > usize::MAX {
        Some(QmbedError::DimensionMismatch(Reason::Text("Hilbert-space size overflow")))
    } else {
        None
    }
}

/// The number of the local states of some sites.
fn gather(dimensions: &[usize], list: &[usize], local: &Vec<usize>, Ghost(global): Ghost<nat>) -> (number:
    usize)
    requires
        all_positive(dimensions@),
        local@.len() == dimensions@.len(),
        forall|i: int| 0 <= i < list@.len() ==> #[trigger] list@[i] < dimensions@.len(),
        product_over(dimensions@, list@) <= usize::MAX,
        forall|site: int|
            0 <= site < local@.len() ==> #[trigger] local@[site] == local_state(
                dimensions@,
                global,
                site as nat,
            ),
    ensures
        number == gathered(dimensions@, list@, global),
{
    let mut number: usize = 0;
    let mut width: usize = 1;
    let mut next: usize = 0;
    assert(list@.take(0) =~= Seq::empty());
    while next < list.len()
        invariant
            next <= list@.len(),
            all_positive(dimensions@),
            local@.len() == dimensions@.len(),
            forall|i: int| 0 <= i < list@.len() ==> #[trigger] list@[i] < dimensions@.len(),
            product_over(dimensions@, list@) <= usize::MAX,
            forall|site: int|
                0 <= site < local@.len() ==> #[trigger] local@[site] == local_state(
                    dimensions@,
                    global,
                    site as nat,
                ),
            number == gathered(dimensions@, list@.take(next as int), global),
            width == product_over(dimensions@, list@.take(next as int)),
        decreases list@.len() - next,
    {
        let site: usize = list[next];
        proof {
            let more = list@.take(next + 1);
            assert(more.drop_last() =~= list@.take(next as int));
            assert forall|i: int| 0 <= i < more.len() implies #[trigger] more[i]
                < dimensions@.len() by {
                assert(list@[i] < dimensions@.len());
            }
            lemma_product_prefix(dimensions@, list@, next + 1);
            lemma_gathered_bound(dimensions@, more, global);
            assert(local@[site as int] == local_state(dimensions@, global, site as nat));
            let v = local@[site as int] as int;
            assert(v * width >= 0) by (nonlinear_arith)
                requires
                    v >= 0,
                    width >= 0,
            ;
        }
        number = number + local[site] * width;
        width = width * dimensions[site];
        next += 1;
    }
    assert(list@.take(next as int) =~= list@);
    number
}

/// The parts of a product state are numbers of states of the parts.
pub proof fn lemma_parts_bounded(dimensions: Seq<usize>, retained: Seq<usize>, global: nat)
    requires
        split_error(dimensions, retained) is None,
        dimensions.len() <= usize::MAX,
    ensures
        gathered(dimensions, retained, global) < product_over(dimensions, retained),
        gathered(dimensions, environment_of(dimensions.len(), retained), global) < product_over(
            dimensions,
            environment_of(dimensions.len(), retained),
        ),
{
    lemma_retained(dimensions.len(), retained, retained.len());
    assert(retained.take(retained.len() as int) =~= retained);
    lemma_environment(dimensions.len(), retained);
    lemma_gathered_bound(dimensions, retained, global);
    lemma_gathered_bound(dimensions, environment_of(dimensions.len(), retained), global);
}

/// Splits every product state into a subsystem part and an environment part.
pub fn subsystem_index_map(local_dimensions: &[usize], retained_sites: &[usize]) -> (result: Result<
    SubsystemIndexMap,
>)
    ensures
        match result {
            Ok(map) => {
                let dimensions = local_dimensions@;
                let retained = retained_sites@;
                let environment = environment_of(dimensions.len(), retained);
                &&& split_error(dimensions, retained) is None
                &&& map.subsystem_dimension == product_over(dimensions, retained)
                &&& map.environment_dimension == product_over(dimensions, environment)
                &&& map.full_dimension == stride(dimensions, dimensions.len())
                &&& map.full_dimension == map.subsystem_dimension * map.environment_dimension
                &&& map.subsystem_indices@.len() == map.full_dimension
                &&& map.environment_indices@.len() == map.full_dimension
                &&& forall|global: int|
                    0 <= global < map.full_dimension ==> #[trigger] map.subsystem_indices@[global]
                        == gathered(dimensions, retained, global as nat)
                &&& forall|global: int|
                    0 <= global < map.full_dimension
                        ==> #[trigger] map.environment_indices@[global] == gathered(
                        dimensions,
                        environment,
                        global as nat,
                    )
            },
            Err(error) => split_error(local_dimensions@, retained_sites@) == Some(error),
        },
{
    let sites: usize = local_dimensions.len();
    let ghost dimensions = local_dimensions@;
    let ghost retained = retained_sites@;
    let ghost outer = environment_of(dimensions.len(), retained);
    let mut site: usize = 0;
    while site < sites
        invariant
            site <= sites,
            sites == local_dimensions@.len(),
            dimensions == local_dimensions@,
            forall|i: int| 0 <= i < site ==> #[trigger] dimensions[i] > 0,
        decreases sites - site,
    {
        if local_dimensions[site] == 0 {
            assert(!(dimensions[site as int] > 0));
            return Err(
                QmbedError::InvalidOptions(
                    Reason::Text("local dimensions must be a nonempty list of positive values"),
                ),
            );
        }
        site += 1;
    }
    if sites == 0 {
        return Err(
            QmbedError::InvalidOptions(
                Reason::Text("local dimensions must be a nonempty list of positive values"),
            ),
        );
    }
    let marks: Vec<bool> = match mark_retained(sites, retained_sites) {
        Ok(marks) => marks,
        Err(error) => {
            return Err(error);
        },
    };
    let environment_sites: Vec<usize> = list_environment(&marks, Ghost(retained));
    proof {
        lemma_environment(dimensions.len(), retained);
        law_parts_make_the_whole(dimensions, dimensions.len(), retained);
    }
    let subsystem_dimension: usize = match checked_product(local_dimensions, retained_sites) {
        Some(product) => product,
        None => {
            return Err(QmbedError::DimensionMismatch(Reason::Text("Hilbert-space size overflow")));
        },
    };
    let environment_dimension: usize = match checked_product(
        local_dimensions,
        environment_sites.as_slice(),
    ) {
        Some(product) => product,
        None => {
            return Err(QmbedError::DimensionMismatch(Reason::Text("Hilbert-space size overflow")));
        },
    };
    let full_dimension: usize = match subsystem_dimension.checked_mul(environment_dimension) {
        Some(product) => product,
        None => {
            return Err(QmbedError::DimensionMismatch(Reason::Text("Hilbert-space size overflow")));
        },
    };
    let mut subsystem_indices: Vec<usize> = Vec::new();
    let mut environment_indices: Vec<usize> = Vec::new();
    let mut global: usize = 0;
    while global < full_dimension
        invariant
            global <= full_dimension,
            sites == local_dimensions@.len(),
            dimensions == local_dimensions@,
            retained == retained_sites@,
            outer == environment_of(dimensions.len(), retained),
            environment_sites@ == outer,
            all_positive(dimensions),
            distinct_sites(dimensions.len(), retained),
            distinct_sites(dimensions.len(), outer),
            product_over(dimensions, retained) <= usize::MAX,
            product_over(dimensions, outer) <= usize::MAX,
            subsystem_indices@.len() == global,
            environment_indices@.len() == global,
            forall|g: int|
                0 <= g < global ==> #[trigger] subsystem_indices@[g] == gathered(
                    dimensions,
                    retained,
                    g as nat,
                ),
            forall|g: int|
                0 <= g < global ==> #[trigger] environment_indices@[g] == gathered(
                    dimensions,
                    outer,
                    g as nat,
                ),
        decreases full_dimension - global,
    {
        let mut value: usize = global;
        let mut local: Vec<usize> = Vec::new();
        let mut at: usize = 0;
        assert(global as nat / 1 == global);
        while at < sites
            invariant
                at <= sites,
                sites == dimensions.len(),
                dimensions == local_dimensions@,
                all_positive(dimensions),
                value == global as nat / stride(dimensions, at as nat),
                local@.len() == at,
                forall|s: int|
                    0 <= s < at ==> #[trigger] local@[s] == local_state(
                        dimensions,
                        global as nat,
                        s as nat,
                    ),
            decreases sites - at,
        {
            let dimension: usize = local_dimensions[at];
            proof {
                lemma_stride_positive(dimensions, at as nat);
                assert(dimensions[at as int] > 0);
                lemma_div_denominator(
                    global as int,
                    stride(dimensions, at as nat) as int,
                    dimension as int,
                );
            }
            local.push(value % dimension);
            value = value / dimension;
            at += 1;
        }
        subsystem_indices.push(
            gather(local_dimensions, retained_sites, &local, Ghost(global as nat)),
        );
        environment_indices.push(
            gather(
                local_dimensions,
                environment_sites.as_slice(),
                &local,
                Ghost(global as nat),
            ),
        );
        global += 1;
    }
    Ok(
        SubsystemIndexMap {
            full_dimension,
            subsystem_dimension,
            environment_dimension,
            subsystem_indices,
            environment_indices,
        },
    )
}

/// Tensor-product dimensions selected by an arbitrary retained site set.
pub fn subsystem_dimensions(local_dimensions: &[usize], retained_sites: &[usize]) -> (result: Result<
    (usize, usize),
>)
    ensures
        match result {
            Ok((subsystem, environment)) => {
                &&& split_error(local_dimensions@, retained_sites@) is None
                &&& subsystem == product_over(local_dimensions@, retained_sites@)
                &&& environment == product_over(
                    local_dimensions@,
                    environment_of(local_dimensions@.len(), retained_sites@),
                )
            },
            Err(error) => split_error(local_dimensions@, retained_sites@) == Some(error),
        },
{
    match subsystem_index_map(local_dimensions, retained_sites) {
        Ok(map) => Ok((map.subsystem_dimension, map.environment_dimension)),
        Err(error) => Err(error),
    }
}

} // verus!

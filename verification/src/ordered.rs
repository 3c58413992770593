//! Sorting, deduplication and search by a numeric rank.

use vstd::prelude::*;
use vstd::seq_lib::*;

verus! {

/// Values that are put in order by a number.
pub trait Ranked: Copy + Sized {
    /// The number by which values are ordered.
    spec fn rank(self) -> int;

    /// Whether this value comes no later than the other.
    fn at_most(&self, other: &Self) -> (answer: bool)
        ensures
            answer == (self.rank() <= other.rank()),
    ;
}

/// Values that are told apart by their rank.
pub trait Coded: Ranked {
    /// Equal ranks belong to equal values.
    proof fn rank_identifies(left: Self, right: Self)
        requires
            left.rank() == right.rank(),
        ensures
            left == right,
    ;
}

impl Ranked for u128 {
    open spec fn rank(self) -> int {
        self as int
    }

    fn at_most(&self, other: &Self) -> (answer: bool) {
        *self <= *other
    }
}

impl Coded for u128 {
    proof fn rank_identifies(left: Self, right: Self) {
    }
}

impl Ranked for usize {
    open spec fn rank(self) -> int {
        self as int
    }

    fn at_most(&self, other: &Self) -> (answer: bool) {
        *self <= *other
    }
}

impl Coded for usize {
    proof fn rank_identifies(left: Self, right: Self) {
    }
}

impl Ranked for i32 {
    open spec fn rank(self) -> int {
        self as int
    }

    fn at_most(&self, other: &Self) -> (answer: bool) {
        *self <= *other
    }
}

impl Coded for i32 {
    proof fn rank_identifies(left: Self, right: Self) {
    }
}

/// Values of which there are finitely many.
pub trait Bounded: Coded {
    /// No rank reaches this number.
    spec fn rank_limit() -> nat;

    /// Ranks are natural numbers below the limit.
    proof fn rank_bounded(item: Self)
        ensures
            0 <= item.rank() < Self::rank_limit(),
    ;
}

impl Bounded for u128 {
    open spec fn rank_limit() -> nat {
        (u128::MAX + 1) as nat
    }

    proof fn rank_bounded(item: Self) {
    }
}

impl Bounded for usize {
    open spec fn rank_limit() -> nat {
        (usize::MAX + 1) as nat
    }

    proof fn rank_bounded(item: Self) {
    }
}

/// A list without repetition is no longer than there are values.
pub proof fn lemma_distinct_bounded<T: Bounded>(items: Seq<T>)
    requires
        items.no_duplicates(),
    ensures
        items.len() <= T::rank_limit(),
{
    let ranks = items.map_values(|item: T| item.rank());
    let limit = T::rank_limit() as int;
    assert forall|i: int, j: int| 0 <= i < ranks.len() && 0 <= j < ranks.len() && i
        != j implies ranks[i] != ranks[j] by {
        if ranks[i] == ranks[j] {
            T::rank_identifies(items[i], items[j]);
        }
    }
    ranks.unique_seq_to_set();
    vstd::set_lib::lemma_int_range(0, limit);
    assert(ranks.to_set().subset_of(vstd::set_lib::set_int_range(0, limit))) by {
        assert forall|rank: int| ranks.to_set().contains(
            rank,
        ) implies vstd::set_lib::set_int_range(0, limit).contains(rank) by {
            let i = ranks.index_of(rank);
            T::rank_bounded(items[i]);
        }
    }
    vstd::set_lib::lemma_len_subset(ranks.to_set(), vstd::set_lib::set_int_range(0, limit));
}

/// Ranks never decrease along the sequence.
pub open spec fn sorted<T: Ranked>(items: Seq<T>) -> bool {
    forall|i: int, j: int| 0 <= i <= j < items.len() ==> items[i].rank() <= items[j].rank()
}

/// Ranks increase at every step of the sequence.
pub open spec fn strictly_sorted<T: Ranked>(items: Seq<T>) -> bool {
    forall|i: int, j: int| 0 <= i < j < items.len() ==> items[i].rank() < items[j].rank()
}

/// Two strictly sorted sequences of the same values are the same sequence.
pub proof fn lemma_strictly_sorted_unique<T: Coded>(left: Seq<T>, right: Seq<T>)
    requires
        strictly_sorted(left),
        strictly_sorted(right),
        forall|item: T| #[trigger] left.contains(item) <==> right.contains(item),
    ensures
        left == right,
{
    lemma_strictly_sorted_prefix(left, right, left.len() as int);
    lemma_strictly_sorted_prefix(right, left, right.len() as int);
    assert(left =~= right);
}

proof fn lemma_strictly_sorted_prefix<T: Coded>(left: Seq<T>, right: Seq<T>, count: int)
    requires
        strictly_sorted(left),
        strictly_sorted(right),
        forall|item: T| #[trigger] left.contains(item) <==> right.contains(item),
        0 <= count <= left.len(),
    ensures
        count <= right.len(),
        forall|i: int| 0 <= i < count ==> left[i] == right[i],
    decreases count,
{
    if count > 0 {
        let k = count - 1;
        lemma_strictly_sorted_prefix(left, right, k);
        assert(left.contains(left[k]));
        let p = choose|p: int| 0 <= p < right.len() && right[p] == left[k];
        assert(p >= k) by {
            if p < k {
                assert(left[p] == right[p]);
                assert(left[p].rank() < left[k].rank());
            }
        }
        assert(right.contains(right[k]));
        assert(left.contains(right[k]));
        let q = choose|q: int| 0 <= q < left.len() && left[q] == right[k];
        assert(q >= k) by {
            if q < k {
                assert(left[q] == right[q]);
                assert(right[q].rank() < right[k].rank());
            }
        }
        assert(p == k) by {
            if p > k {
                assert(right[k].rank() < right[p].rank());
                if q > k {
                    assert(left[k].rank() < left[q].rank());
                }
            }
        }
    }
}

/// Merges two sorted lists.
fn merge<T: Ranked>(left: &Vec<T>, right: &Vec<T>) -> (merged: Vec<T>)
    requires
        sorted(left@),
        sorted(right@),
    ensures
        sorted(merged@),
        merged@.to_multiset() == (left@ + right@).to_multiset(),
{
    let mut merged: Vec<T> = Vec::new();
    let mut i: usize = 0;
    let mut j: usize = 0;
    proof {
        assert(left@.take(0) + right@.take(0) =~= merged@);
    }
    while i < left.len() || j < right.len()
        invariant
            i <= left@.len(),
            j <= right@.len(),
            sorted(left@),
            sorted(right@),
            sorted(merged@),
            merged@.to_multiset() == (left@.take(i as int) + right@.take(j as int)).to_multiset(),
            forall|a: int, b: int|
                0 <= a < merged@.len() && i <= b < left@.len() ==> (#[trigger] merged@[a]).rank()
                    <= (#[trigger] left@[b]).rank(),
            forall|a: int, b: int|
                0 <= a < merged@.len() && j <= b < right@.len() ==> (#[trigger] merged@[a]).rank()
                    <= (#[trigger] right@[b]).rank(),
        decreases left@.len() - i + right@.len() - j,
    {
        let take_left: bool = if i >= left.len() {
            false
        } else if j >= right.len() {
            true
        } else {
            left[i].at_most(&right[j])
        };
        proof {
            broadcast use group_to_multiset_ensures;

            let l = left@.take(i as int);
            let r = right@.take(j as int);
            lemma_multiset_commutative(l, r);
            if take_left {
                assert(left@.take(i + 1) =~= l.push(left@[i as int]));
                lemma_multiset_commutative(left@.take(i + 1), r);
                assert(merged@.push(left@[i as int]).to_multiset() =~= (left@.take(i + 1)
                    + r).to_multiset());
            } else {
                assert(right@.take(j + 1) =~= r.push(right@[j as int]));
                lemma_multiset_commutative(l, right@.take(j + 1));
                assert(merged@.push(right@[j as int]).to_multiset() =~= (l + right@.take(
                    j + 1,
                )).to_multiset());
            }
        }
        if take_left {
            merged.push(left[i]);
            i += 1;
        } else {
            merged.push(right[j]);
            j += 1;
        }
    }
    proof {
        assert(left@.take(i as int) =~= left@);
        assert(right@.take(j as int) =~= right@);
    }
    merged
}

/// The part of `items` from `start` to `end`, in order of rank.
fn sorted_range<T: Ranked>(items: &Vec<T>, start: usize, end: usize) -> (result: Vec<T>)
    requires
        start <= end <= items@.len(),
    ensures
        sorted(result@),
        result@.to_multiset() == items@.subrange(start as int, end as int).to_multiset(),
    decreases end - start,
{
    if end - start <= 1 {
        let mut result: Vec<T> = Vec::new();
        if start < end {
            result.push(items[start]);
        }
        assert(result@ =~= items@.subrange(start as int, end as int));
        return result;
    }
    let middle: usize = start + (end - start) / 2;
    let left: Vec<T> = sorted_range(items, start, middle);
    let right: Vec<T> = sorted_range(items, middle, end);
    proof {
        let l = items@.subrange(start as int, middle as int);
        let r = items@.subrange(middle as int, end as int);
        assert(l + r =~= items@.subrange(start as int, end as int));
        lemma_multiset_commutative(l, r);
        lemma_multiset_commutative(left@, right@);
    }
    merge(&left, &right)
}

/// The same values in order of rank.
pub fn sort<T: Ranked>(items: &Vec<T>) -> (result: Vec<T>)
    ensures
        sorted(result@),
        result@.to_multiset() == items@.to_multiset(),
{
    proof {
        assert(items@.subrange(0, items@.len() as int) =~= items@);
    }
    sorted_range(items, 0, items.len())
}

/// A permutation has the same members and the same number of them.
pub proof fn lemma_same_members<T>(left: Seq<T>, right: Seq<T>)
    requires
        left.to_multiset() == right.to_multiset(),
    ensures
        left.len() == right.len(),
        forall|item: T| #[trigger] left.contains(item) <==> right.contains(item),
        left.no_duplicates() ==> right.no_duplicates(),
{
    broadcast use group_to_multiset_ensures;

    assert(left.len() == left.to_multiset().len());
    assert(right.len() == right.to_multiset().len());
    assert forall|item: T| #[trigger] left.contains(item) <==> right.contains(item) by {
        assert(left.contains(item) <==> left.to_multiset().count(item) > 0);
        assert(right.contains(item) <==> right.to_multiset().count(item) > 0);
    }
    if left.no_duplicates() {
        left.lemma_multiset_has_no_duplicates();
        right.lemma_multiset_has_no_duplicates_conv();
    }
}

/// The values in strictly increasing order of rank, each once.
pub fn sort_dedup<T: Coded>(items: &Vec<T>) -> (result: Vec<T>)
    ensures
        strictly_sorted(result@),
        forall|item: T| #[trigger] result@.contains(item) <==> items@.contains(item),
        items@.no_duplicates() ==> result@.len() == items@.len(),
{
    let ordered: Vec<T> = sort(items);
    let mut result: Vec<T> = Vec::new();
    let mut next: usize = 0;
    proof {
        lemma_same_members(items@, ordered@);
        assert(ordered@.take(0) =~= result@);
    }
    while next < ordered.len()
        invariant
            next <= ordered@.len(),
            sorted(ordered@),
            strictly_sorted(result@),
            forall|item: T|
                #[trigger] result@.contains(item) <==> ordered@.take(next as int).contains(item),
            next > 0 ==> result@.len() > 0 && result@.last() == ordered@[next - 1],
            next == 0 ==> result@.len() == 0,
            ordered@.no_duplicates() ==> result@.len() == next,
        decreases ordered@.len() - next,
    {
        let item: T = ordered[next];
        let repeated: bool = if result.len() == 0 {
            false
        } else {
            item.at_most(&result[result.len() - 1])
        };
        let ghost before = result@;
        let ghost seen = ordered@.take(next as int);
        let ghost wider = ordered@.take(next + 1);
        proof {
            assert(wider =~= seen.push(item));
            if repeated {
                T::rank_identifies(item, before.last());
            }
        }
        if !repeated {
            result.push(item);
        }
        proof {
            assert forall|x: T| #[trigger] result@.contains(x) <==> wider.contains(x) by {
                if result@.contains(x) {
                    let i = choose|i: int| 0 <= i < result@.len() && result@[i] == x;
                    if i < before.len() {
                        assert(before.contains(before[i]));
                        let p = choose|p: int| 0 <= p < seen.len() && seen[p] == x;
                        assert(wider[p] == x);
                    } else {
                        assert(wider[next as int] == x);
                    }
                }
                if wider.contains(x) {
                    let i = choose|i: int| 0 <= i < wider.len() && wider[i] == x;
                    if i < next {
                        assert(seen[i] == x);
                        assert(before.contains(x));
                        let p = choose|p: int| 0 <= p < before.len() && before[p] == x;
                        assert(result@[p] == x);
                    } else {
                        assert(result@[result@.len() - 1] == x);
                    }
                }
            }
            assert forall|i: int, j: int| 0 <= i < j < result@.len() implies result@[i].rank()
                < result@[j].rank() by {
                if j == before.len() {
                    if i < before.len() - 1 {
                        assert(before[i].rank() < before[before.len() - 1].rank());
                    }
                }
            }
        }
        next += 1;
    }
    proof {
        assert(ordered@.take(next as int) =~= ordered@);
    }
    result
}

/// Place of a value in a strictly sorted list.
pub fn find<T: Coded>(items: &Vec<T>, item: T) -> (place: Option<usize>)
    requires
        strictly_sorted(items@),
    ensures
        match place {
            Some(index) => index < items@.len() && items@[index as int] == item,
            None => !items@.contains(item),
        },
{
    let mut low: usize = 0;
    let mut high: usize = items.len();
    while low < high
        invariant
            low <= high <= items@.len(),
            strictly_sorted(items@),
            forall|i: int| 0 <= i < low ==> (#[trigger] items@[i]).rank() < item.rank(),
            forall|i: int| high <= i < items@.len() ==> item.rank() < (#[trigger] items@[i]).rank(),
        decreases high - low,
    {
        let middle: usize = low + (high - low) / 2;
        let probe: T = items[middle];
        if probe.at_most(&item) {
            if item.at_most(&probe) {
                proof {
                    T::rank_identifies(probe, item);
                }
                return Some(middle);
            }
            low = middle + 1;
        } else {
            high = middle;
        }
    }
    None
}

/// The same list again.
pub fn copy_list<T: Copy>(items: &Vec<T>) -> (copy: Vec<T>)
    ensures
        copy@ == items@,
{
    let mut copy: Vec<T> = Vec::new();
    let mut next: usize = 0;
    while next < items.len()
        invariant
            next <= items@.len(),
            copy@ == items@.take(next as int),
        decreases items@.len() - next,
    {
        copy.push(items[next]);
        next += 1;
        assert(items@.take(next as int) =~= items@.take(next - 1).push(items@[next - 1]));
    }
    assert(items@.take(next as int) =~= items@);
    copy
}

} // verus!

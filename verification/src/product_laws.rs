//! Products of bases: operator strings act on their factors, and sectors keep what stays inside.

use vstd::prelude::*;

use crate::amplitudes::ReductionFactor;
use crate::basis::{Basis, EitherPhase, Factor, Pair};
use crate::photon;
use crate::photon::{kept_states, staying};
use crate::symbols;
use crate::tensor;
use crate::tensor::TensorBasis;

verus! {

/// Whether two orbit factors have the same sizes.
pub open spec fn same_sizes<P, Q>(left: ReductionFactor<P>, right: ReductionFactor<Q>) -> bool {
    left.source_orbit == right.source_orbit && left.target_orbit == right.target_orbit
}

/// Whether a factor of a product is a factor of its first part.
pub open spec fn is_from_left<P, Q>(whole: Factor<EitherPhase<P, Q>>, part: Factor<P>) -> bool {
    match (whole, part) {
        (Factor::Local(a), Factor::Local(b)) => a == b,
        (Factor::Whole(a), Factor::Whole(b)) => a == b,
        (Factor::Reduced(a), Factor::Reduced(b)) => same_sizes(a, b) && a.phase == EitherPhase::<
            P,
            Q,
        >::Left(b.phase),
        _ => false,
    }
}

/// Whether a factor of a product is a factor of its second part.
pub open spec fn is_from_right<P, Q>(whole: Factor<EitherPhase<P, Q>>, part: Factor<Q>) -> bool {
    match (whole, part) {
        (Factor::Local(a), Factor::Local(b)) => a == b,
        (Factor::Whole(a), Factor::Whole(b)) => a == b,
        (Factor::Reduced(a), Factor::Reduced(b)) => same_sizes(a, b) && a.phase == EitherPhase::<
            P,
            Q,
        >::Right(b.phase),
        _ => false,
    }
}

/// Whether factors of a product are those of its first part and, after them, those of its second.
pub open spec fn joins<P, Q>(
    whole: Seq<Factor<EitherPhase<P, Q>>>,
    left: Seq<Factor<P>>,
    right: Seq<Factor<Q>>,
) -> bool {
    &&& whole.len() == left.len() + right.len()
    &&& forall|i: int| 0 <= i < left.len() ==> is_from_left(whole[i], #[trigger] left[i])
    &&& forall|i: int|
        0 <= i < right.len() ==> is_from_right(whole[left.len() + i], #[trigger] right[i])
}

/// Whether a text has no separator.
pub open spec fn unseparated(text: Seq<char>) -> bool {
    forall|i: int| 0 <= i < text.len() ==> #[trigger] text[i] != '|'
}

proof fn lemma_split(left: Seq<char>, right: Seq<char>)
    requires
        unseparated(left),
        unseparated(right),
    ensures
        tensor::separated(left + seq!['|'] + right),
        tensor::left_part(left + seq!['|'] + right) == left,
        tensor::right_part(left + seq!['|'] + right) == right,
        !tensor::separated(right),
{
    let text = left + seq!['|'] + right;
    assert forall|i: int| 0 <= i < left.len() implies text[i] != '|' by {
        assert(text[i] == left[i]);
    }
    symbols::lemma_first_separator_unique(text, left.len() as int);
    symbols::lemma_first_separator_unique(right, right.len() as int);
    assert(tensor::left_part(text) =~= left);
    assert(tensor::right_part(text) =~= right);
}

/// An operator string on a product acts on each factor with its own part: for every transition of
/// the first factor and every one of the second there is one transition of the product, to the
/// pair of their targets and with the factors of both.
pub proof fn law_strings_act_on_their_factors<Left: Basis, Right: Basis>(
    product: &TensorBasis<Left, Right>,
    state: Pair<Left::State, Right::State>,
    left: Seq<char>,
    left_sites: Seq<usize>,
    right: Seq<char>,
    right_sites: Seq<usize>,
)
    requires
        unseparated(left),
        unseparated(right),
        left.len() > 0,
        right.len() > 0,
        left.len() == left_sites.len(),
        right.len() == right_sites.len(),
        product.spec_left().spec_transitions(state.left, left, left_sites) is Ok,
        product.spec_right().spec_transitions(state.right, right, right_sites) is Ok,
    ensures
        ({
            let rows = product.spec_left().spec_transitions(state.left, left, left_sites)->Ok_0;
            let columns = product.spec_right().spec_transitions(
                state.right,
                right,
                right_sites,
            )->Ok_0;
            let both = product.spec_transitions(
                state,
                left + seq!['|'] + right,
                left_sites + right_sites,
            );
            &&& both is Ok
            &&& both->Ok_0.len() == rows.len() * columns.len()
            &&& forall|i: int, j: int|
                0 <= i < rows.len() && 0 <= j < columns.len() ==> {
                    let found = both->Ok_0[i * columns.len() + j];
                    &&& found.0 == (Pair { left: (#[trigger] rows[i]).0, right: (#[trigger] columns[j]).0 })
                    &&& joins(found.1, rows[i].1, columns[j].1)
                }
        }),
{
    lemma_split(left, right);
    let sites = left_sites + right_sites;
    assert(sites.subrange(0, left.len() as int) =~= left_sites);
    assert(sites.subrange(left.len() as int, sites.len() as int) =~= right_sites);
    let rows = product.spec_left().spec_transitions(state.left, left, left_sites)->Ok_0;
    let columns = product.spec_right().spec_transitions(state.right, right, right_sites)->Ok_0;
    let both = product.spec_transitions(state, left + seq!['|'] + right, sites);
    assert(both is Ok);
    assert(both->Ok_0 == tensor::paired_transitions(rows, columns));
    assert forall|i: int, j: int| 0 <= i < rows.len() && 0 <= j < columns.len() implies {
        let found = both->Ok_0[i * columns.len() + j];
        &&& found.0 == (Pair { left: (#[trigger] rows[i]).0, right: (#[trigger] columns[j]).0 })
        &&& joins(found.1, rows[i].1, columns[j].1)
    } by {
        tensor::lemma_pair_number(i, j, columns.len() as int);
        tensor::lemma_pair_bound(i, j, rows.len(), columns.len());
    }
}

/// A string that names one factor leaves the other as it is.
pub proof fn law_strings_leave_the_other_factor<Left: Basis, Right: Basis>(
    product: &TensorBasis<Left, Right>,
    state: Pair<Left::State, Right::State>,
    text: Seq<char>,
    sites: Seq<usize>,
)
    requires
        unseparated(text),
        text.len() > 0,
        text.len() == sites.len(),
    ensures
        product.spec_left().spec_transitions(state.left, text, sites) matches Ok(rows) ==> {
            let found = product.spec_transitions(state, text + seq!['|'], sites);
            &&& found is Ok
            &&& found->Ok_0.len() == rows.len()
            &&& forall|i: int|
                0 <= i < rows.len() ==> {
                    &&& found->Ok_0[i].0 == (Pair { left: (#[trigger] rows[i]).0, right: state.right })
                    &&& joins(found->Ok_0[i].1, rows[i].1, Seq::empty())
                }
        },
        product.spec_right().spec_transitions(state.right, text, sites) matches Ok(columns) ==> {
            let found = product.spec_transitions(state, seq!['|'] + text, sites);
            &&& found is Ok
            &&& found->Ok_0.len() == columns.len()
            &&& forall|j: int|
                0 <= j < columns.len() ==> {
                    &&& found->Ok_0[j].0 == (Pair { left: state.left, right: (#[trigger] columns[j]).0 })
                    &&& joins(found->Ok_0[j].1, Seq::empty(), columns[j].1)
                }
        },
{
    let none = Seq::<char>::empty();
    lemma_split(text, none);
    lemma_split(none, text);
    assert(text + seq!['|'] + none =~= text + seq!['|']);
    assert(none + seq!['|'] + text =~= seq!['|'] + text);
    let n = sites.len() as int;
    assert(sites.subrange(0, n) =~= sites);
    if let Ok(rows) = product.spec_left().spec_transitions(state.left, text, sites) {
        assert(rows.len() * 1 == rows.len());
        let list = product.spec_transitions(state, text + seq!['|'], sites)->Ok_0;
        assert forall|i: int| 0 <= i < rows.len() implies {
            &&& list[i].0 == (Pair { left: (#[trigger] rows[i]).0, right: state.right })
            &&& joins(list[i].1, rows[i].1, Seq::empty())
        } by {
            tensor::lemma_pair_number(i, 0, 1);
        }
    }
    if let Ok(columns) = product.spec_right().spec_transitions(state.right, text, sites) {
        let width = columns.len() as int;
        assert(1 * columns.len() == columns.len());
        let found = product.spec_transitions(state, seq!['|'] + text, sites);
        assert(sites.subrange(0, 0) =~= Seq::empty());
        assert(sites.subrange(0, sites.len() as int) =~= sites);
        assert(tensor::right_part(seq!['|'] + text) == text);
        assert(tensor::left_part(seq!['|'] + text) == none);
        assert(found is Ok);
        let list = found->Ok_0;
        assert(list.len() == columns.len());
        assert forall|j: int| 0 <= j < columns.len() implies {
            &&& list[j].0 == (Pair { left: state.left, right: (#[trigger] columns[j]).0 })
            &&& joins(list[j].1, Seq::empty(), columns[j].1)
        } by {
            tensor::lemma_pair_number(0, j, width);
        }
    }
}

/// A photon basis at fixed total keeps exactly the product states whose excitations and photons
/// make up the total.
pub proof fn law_rows_have_the_total<S>(
    states: Seq<Pair<S, u128>>,
    total: usize,
    levels: Seq<usize>,
    place: int,
)
    requires
        states.no_duplicates(),
        0 <= place < states.len(),
    ensures
        kept_states(states, Some(total), levels).contains(states[place]) <==> levels[place]
            + states[place].right == total,
        kept_states(states, None, levels).contains(states[place]),
    decreases states.len(),
{
    let fewer = states.drop_last();
    let last = states.len() - 1;
    let state = states[place];
    assert forall|given: Option<usize>|
        place == last implies !(#[trigger] kept_states(fewer, given, levels)).contains(state) by {
        photon::lemma_kept(fewer, given, levels);
        let before = kept_states(fewer, given, levels);
        if before.contains(state) {
            let i = before.index_of(state);
            assert(fewer.contains(before[i]));
            let k = fewer.index_of(state);
            assert(states[k] == states[place]);
        }
    }
    assert forall|i: int, j: int|
        0 <= i < fewer.len() && 0 <= j < fewer.len() && i != j implies fewer[i] != fewer[j] by {
        assert(states[i] != states[j]);
    }
    if place < last {
        law_rows_have_the_total(fewer, total, levels, place);
        assert(fewer[place] == state);
        assert(states[last] != state);
    }
    lemma_pushed(kept_states(fewer, Some(total), levels), states[last], state);
    lemma_pushed(kept_states(fewer, None, levels), states[last], state);
}

proof fn lemma_pushed<A>(list: Seq<A>, item: A, wanted: A)
    ensures
        list.push(item).contains(wanted) <==> list.contains(wanted) || item == wanted,
{
    let longer = list.push(item);
    if longer.contains(wanted) {
        let i = longer.index_of(wanted);
        if i < list.len() {
            assert(list[i] == wanted);
        }
    }
    if list.contains(wanted) {
        let i = list.index_of(wanted);
        assert(longer[i] == wanted);
    }
    assert(longer[list.len() as int] == item);
}

/// A sector keeps exactly the transitions onto its own states, unchanged and in order.
pub proof fn law_sector_keeps_what_stays<S, P>(
    transitions: Seq<(S, Seq<Factor<P>>)>,
    states: Seq<S>,
) -> (places: Seq<int>)
    ensures
        places.len() == staying(transitions, states).len(),
        forall|i: int, j: int| 0 <= i < j < places.len() ==> places[i] < places[j],
        forall|i: int|
            0 <= i < places.len() ==> {
                &&& 0 <= #[trigger] places[i] < transitions.len()
                &&& staying(transitions, states)[i] == transitions[places[i]]
            },
        forall|place: int|
            0 <= place < transitions.len() ==> (states.contains((#[trigger] transitions[place]).0)
                <==> places.contains(place)),
    decreases transitions.len(),
{
    if transitions.len() == 0 {
        Seq::empty()
    } else {
        let fewer = transitions.drop_last();
        let last = transitions.len() - 1;
        let before = law_sector_keeps_what_stays(fewer, states);
        let list = staying(transitions, states);
        let places = if states.contains(transitions.last().0) {
            before.push(last)
        } else {
            before
        };
        assert forall|i: int| 0 <= i < places.len() implies {
            &&& 0 <= #[trigger] places[i] < transitions.len()
            &&& list[i] == transitions[places[i]]
        } by {
            if i < before.len() {
                assert(places[i] == before[i]);
                assert(transitions[places[i]] == fewer[before[i]]);
            }
        }
        assert forall|i: int, j: int| 0 <= i < j < places.len() implies places[i] < places[j] by {
            assert(places[i] == before[i]);
            if j < before.len() {
                assert(places[j] == before[j]);
            }
        }
        assert forall|place: int| 0 <= place < transitions.len() implies (states.contains(
            (#[trigger] transitions[place]).0,
        ) <==> places.contains(place)) by {
            lemma_pushed(before, last, place);
            if place < last {
                assert(fewer[place] == transitions[place]);
            } else if before.contains(place) {
                let i = before.index_of(place);
                assert(before[i] < fewer.len());
            }
        }
        places
    }
}

} // verus!

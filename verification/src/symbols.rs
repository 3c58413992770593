//! Operator strings: their symbols and the particle numbers they change.

use vstd::prelude::*;

use crate::error::{OperatorFault, QmbedError, Reason, Result};
use crate::ordered;

verus! {

/// The symbols of one operator string, kept inline while they are few.
#[verifier::external_body]
#[derive(Debug)]
pub struct SymbolBuffer {
    inner: smallvec::SmallVec<[char; 8]>,
}

/// The symbols that a buffer holds, in order.
pub uninterp spec fn buffered_symbols(buffer: SymbolBuffer) -> Seq<char>;

impl View for SymbolBuffer {
    type V = Seq<char>;

    open spec fn view(&self) -> Seq<char> {
        buffered_symbols(*self)
    }
}

impl SymbolBuffer {
    /// `SmallVec::new`: a buffer without symbols.
    #[verifier::external_body]
    pub(crate) fn new() -> (buffer: Self)
        ensures
            buffered_symbols(buffer) == Seq::<char>::empty(),
    {
        SymbolBuffer { inner: smallvec::SmallVec::new() }
    }

    /// `SmallVec::push`: adds a symbol behind the others.
    #[verifier::external_body]
    pub(crate) fn push(&mut self, symbol: char)
        ensures
            buffered_symbols(*final(self)) == buffered_symbols(*old(self)).push(symbol),
    {
        self.inner.push(symbol);
    }

    /// `SmallVec::as_slice`: the symbols as a slice, in order.
    #[verifier::external_body]
    pub(crate) fn as_slice(&self) -> (symbols: &[char])
        ensures
            symbols@ == buffered_symbols(*self),
    {
        self.inner.as_slice()
    }
}

/// The symbols of a string without the species separators.
pub open spec fn without_separators(text: Seq<char>) -> Seq<char>
    decreases text.len(),
{
    if text.len() == 0 {
        Seq::empty()
    } else if text.last() == '|' {
        without_separators(text.drop_last())
    } else {
        without_separators(text.drop_last()).push(text.last())
    }
}

/// The characters of a string.
pub fn characters(text: &str) -> (symbols: Vec<char>)
    ensures
        symbols@ == text@,
{
    let mut symbols: Vec<char> = Vec::new();
    for symbol in it: text.chars()
        invariant
            symbols@ == it.seq().take(it.index()),
            it.seq() == text@,
    {
        symbols.push(symbol);
        assert(it.seq().take(it.index() + 1) =~= it.seq().take(it.index()).push(symbol));
    }
    assert(text@.take(text@.len() as int) =~= text@);
    symbols
}

/// The symbols of an operator string, one for each of the given sites.
pub fn operator_chars(operator: &str, sites: &[usize]) -> (result: Result<SymbolBuffer>)
    ensures
        match result {
            Ok(buffer) => {
                &&& buffer@ == without_separators(operator@)
                &&& buffer@.len() == sites@.len()
            },
            Err(error) => {
                &&& without_separators(operator@).len() != sites@.len()
                &&& error == (QmbedError::InvalidCoupling(Reason::Arity {
                    symbols: without_separators(operator@).len() as usize,
                    sites: sites@.len() as usize,
                }))
            },
        },
{
    let mut buffer: SymbolBuffer = SymbolBuffer::new();
    let text: Vec<char> = characters(operator);
    let mut next: usize = 0;
    while next < text.len()
        invariant
            next <= text@.len(),
            buffer@ == without_separators(text@.take(next as int)),
        decreases text@.len() - next,
    {
        let symbol: char = text[next];
        proof {
            assert(text@.take(next + 1).drop_last() =~= text@.take(next as int));
        }
        if symbol != '|' {
            buffer.push(symbol);
        }
        next += 1;
    }
    assert(text@.take(next as int) =~= operator@);
    let count: usize = buffer.as_slice().len();
    if count != sites.len() {
        return Err(QmbedError::InvalidCoupling(Reason::Arity { symbols: count, sites: sites.len() }));
    }
    Ok(buffer)
}

/// Symbols that leave the particle number as it is.
pub open spec fn number_neutral(symbol: char) -> bool {
    symbol == '|' || symbol == 'I' || symbol == 'n' || symbol == 'z'
}

/// Symbols that raise or lower the particle number by one, either way.
pub open spec fn number_mixing(symbol: char) -> bool {
    symbol == 'x' || symbol == 'y'
}

/// Change of the particle number along an operator string, added to `sum`.
///
/// The first symbol that decides ends the walk: a symbol that changes the number
/// both ways leaves no single answer, an unknown one is refused.
pub open spec fn number_change(symbols: Seq<char>, sum: int) -> core::result::Result<
    Option<int>,
    QmbedError,
>
    decreases symbols.len(),
{
    if symbols.len() == 0 {
        Ok(Some(sum))
    } else {
        let rest = symbols.drop_first();
        if symbols[0] == '+' {
            number_change(rest, sum + 1)
        } else if symbols[0] == '-' {
            number_change(rest, sum - 1)
        } else if number_mixing(symbols[0]) {
            Ok(None)
        } else if number_neutral(symbols[0]) {
            number_change(rest, sum)
        } else {
            Err(QmbedError::InvalidOperator(OperatorFault::Whole))
        }
    }
}

/// The particle number that a stretch of symbols adds, if it is a single number.
pub fn stretch_number_change(text: &Vec<char>, start: usize, end: usize) -> (result: Result<
    Option<i32>,
>)
    requires
        start <= end <= text@.len(),
        text@.len() <= i32::MAX,
    ensures
        number_change_is(result, text@.subrange(start as int, end as int)),
{
    let ghost stretch = text@.subrange(start as int, end as int);
    let mut change: i32 = 0;
    let mut next: usize = start;
    assert(stretch.skip(0) =~= stretch);
    while next < end
        invariant
            start <= next <= end <= text@.len(),
            text@.len() <= i32::MAX,
            stretch == text@.subrange(start as int, end as int),
            -(next - start) <= change <= next - start,
            number_change(stretch.skip(next - start), change as int) == number_change(stretch, 0),
        decreases end - next,
    {
        let symbol: char = text[next];
        proof {
            let done = next - start;
            assert(stretch.skip(done)[0] == symbol);
            assert(stretch.skip(done).drop_first() =~= stretch.skip(done + 1));
        }
        if symbol == '+' {
            change += 1;
        } else if symbol == '-' {
            change -= 1;
        } else if symbol == 'x' || symbol == 'y' {
            return Ok(None);
        } else if symbol == 'I' || symbol == 'n' || symbol == 'z' || symbol == '|' {
        } else {
            return Err(QmbedError::InvalidOperator(OperatorFault::Whole));
        }
        next += 1;
    }
    Ok(Some(change))
}

/// Whether a returned change is that of the symbols.
pub open spec fn number_change_is(result: Result<Option<i32>>, symbols: Seq<char>) -> bool {
    match result {
        Ok(Some(change)) => number_change(symbols, 0) == Ok::<Option<int>, QmbedError>(
            Some(change as int),
        ),
        Ok(None) => number_change(symbols, 0) == Ok::<Option<int>, QmbedError>(None),
        Err(error) => number_change(symbols, 0) == Err::<Option<int>, QmbedError>(error),
    }
}

/// The particle number that an operator string adds, if it is a single number.
pub fn operator_number_change(operator: &str) -> (result: Result<Option<i32>>)
    requires
        operator@.len() <= i32::MAX,
    ensures
        number_change_is(result, operator@),
{
    let text: Vec<char> = characters(operator);
    assert(text@.subrange(0, text@.len() as int) =~= operator@);
    stretch_number_change(&text, 0, text.len())
}

/// Place of the first separator, or the length where there is none.
pub open spec fn first_separator(text: Seq<char>) -> int
    decreases text.len(),
{
    if text.len() == 0 || text[0] == '|' {
        0
    } else {
        1 + first_separator(text.drop_first())
    }
}

pub proof fn lemma_first_separator(text: Seq<char>)
    ensures
        0 <= first_separator(text) <= text.len(),
        forall|i: int| 0 <= i < first_separator(text) ==> text[i] != '|',
        first_separator(text) < text.len() ==> text[first_separator(text)] == '|',
    decreases text.len(),
{
    if text.len() > 0 && text[0] != '|' {
        let rest = text.drop_first();
        lemma_first_separator(rest);
        assert forall|i: int| 0 <= i < first_separator(text) implies text[i] != '|' by {
            if i > 0 {
                assert(text[i] == rest[i - 1]);
            }
        }
    }
}

/// A place before which there is no separator, and at which there is one or the
/// end, is the first.
pub proof fn lemma_first_separator_unique(text: Seq<char>, place: int)
    requires
        0 <= place <= text.len(),
        forall|i: int| 0 <= i < place ==> text[i] != '|',
        place < text.len() ==> text[place] == '|',
    ensures
        first_separator(text) == place,
{
    lemma_first_separator(text);
    let found = first_separator(text);
    if found < place {
        assert(text[found] != '|');
    }
    if place < found {
        assert(text[place] != '|');
    }
}

/// Finds the first separator from `start` on.
pub fn find_separator(text: &Vec<char>, start: usize) -> (place: usize)
    requires
        start <= text@.len(),
    ensures
        start <= place <= text@.len(),
        forall|i: int| start <= i < place ==> text@[i] != '|',
        place < text@.len() ==> text@[place as int] == '|',
        start == 0 ==> place == first_separator(text@),
{
    let mut place: usize = start;
    while place < text.len() && text[place] != '|'
        invariant
            start <= place <= text@.len(),
            forall|i: int| start <= i < place ==> text@[i] != '|',
        decreases text@.len() - place,
    {
        place += 1;
    }
    proof {
        if start == 0 {
            lemma_first_separator_unique(text@, place as int);
        }
    }
    place
}

/// Whether the string can change the particle number by `change`.
pub open spec fn number_reachable(symbols: Seq<char>, change: int) -> bool
    decreases symbols.len(),
{
    if symbols.len() == 0 {
        change == 0
    } else {
        let rest = symbols.drop_last();
        if symbols.last() == '+' {
            number_reachable(rest, change - 1)
        } else if symbols.last() == '-' {
            number_reachable(rest, change + 1)
        } else if number_mixing(symbols.last()) {
            number_reachable(rest, change - 1) || number_reachable(rest, change + 1)
        } else {
            number_reachable(rest, change)
        }
    }
}

/// Whether every symbol of the string has a known effect on the particle number.
pub open spec fn number_symbols_known(symbols: Seq<char>) -> bool {
    forall|i: int|
        0 <= i < symbols.len() ==> #[trigger] symbols[i] == '+' || symbols[i] == '-'
            || number_mixing(symbols[i]) || number_neutral(symbols[i])
}

/// Adds `step` to every change.
fn shift_changes(changes: &Vec<i32>, step: i32) -> (shifted: Vec<i32>)
    requires
        forall|i: int|
            0 <= i < changes@.len() ==> i32::MIN <= #[trigger] changes@[i] + step <= i32::MAX,
    ensures
        shifted@.len() == changes@.len(),
        forall|i: int| 0 <= i < changes@.len() ==> #[trigger] shifted@[i] == changes@[i] + step,
{
    let mut shifted: Vec<i32> = Vec::new();
    let mut i: usize = 0;
    while i < changes.len()
        invariant
            i <= changes@.len(),
            shifted@.len() == i,
            forall|j: int|
                0 <= j < changes@.len() ==> i32::MIN <= #[trigger] changes@[j] + step <= i32::MAX,
            forall|j: int| 0 <= j < i ==> #[trigger] shifted@[j] == changes@[j] + step,
        decreases changes@.len() - i,
    {
        shifted.push(changes[i] + step);
        i += 1;
    }
    shifted
}

/// A list of changes that holds exactly what the symbols can reach.
spec fn lists_changes(changes: Seq<i32>, symbols: Seq<char>) -> bool {
    &&& ordered::strictly_sorted(changes)
    &&& forall|i: int|
        0 <= i < changes.len() ==> #[trigger] number_reachable(symbols, changes[i] as int)
    &&& forall|change: int|
        #[trigger] number_reachable(symbols, change) ==> -symbols.len() <= change <= symbols.len()
            && changes.contains(change as i32)
}

/// All particle-number changes that an operator string can make, ascending.
pub fn operator_number_changes(operator: &str) -> (result: Result<Vec<i32>>)
    requires
        operator@.len() < i32::MAX,
    ensures
        match result {
            Ok(changes) => {
                &&& number_symbols_known(operator@)
                &&& ordered::strictly_sorted(changes@)
                &&& forall|change: i32| #[trigger]
                    changes@.contains(change) <==> number_reachable(operator@, change as int)
                &&& forall|change: int| #[trigger]
                    number_reachable(operator@, change) ==> i32::MIN <= change <= i32::MAX
            },
            Err(error) => {
                &&& !number_symbols_known(operator@)
                &&& error == QmbedError::InvalidOperator(OperatorFault::Whole)
            },
        },
{
    let text: Vec<char> = characters(operator);
    let mut changes: Vec<i32> = Vec::new();
    changes.push(0);
    let mut next: usize = 0;
    proof {
        let none = text@.take(0);
        assert forall|change: int| #[trigger] number_reachable(none, change) implies -none.len()
            <= change <= none.len() && changes@.contains(change as i32) by {
            assert(changes@[0] == change);
        }
    }
    while next < text.len()
        invariant
            next <= text@.len(),
            text@ == operator@,
            text@.len() < i32::MAX,
            lists_changes(changes@, text@.take(next as int)),
            number_symbols_known(text@.take(next as int)),
        decreases text@.len() - next,
    {
        let symbol: char = text[next];
        let ghost seen = text@.take(next as int);
        let ghost wider = text@.take(next + 1);
        let ghost before = changes@;
        proof {
            assert(wider.drop_last() =~= seen);
            assert forall|i: int| 0 <= i < before.len() implies -next <= #[trigger] before[i]
                <= next by {
                assert(number_reachable(seen, before[i] as int));
            }
        }
        if symbol == '+' {
            changes = shift_changes(&changes, 1);
            proof {
                assert forall|change: int| #[trigger] number_reachable(wider, change) implies
                    -wider.len() <= change <= wider.len() && changes@.contains(change as i32) by {
                    assert(number_reachable(seen, change - 1));
                    let i = choose|i: int| 0 <= i < before.len() && before[i] == (change - 1) as i32;
                    assert(changes@[i] == change);
                }
                assert forall|i: int| 0 <= i < changes@.len() implies #[trigger] number_reachable(
                    wider,
                    changes@[i] as int,
                ) by {
                    assert(number_reachable(seen, before[i] as int));
                    assert(changes@[i] == before[i] + 1);
                }
            }
        } else if symbol == '-' {
            changes = shift_changes(&changes, -1);
            proof {
                assert forall|change: int| #[trigger] number_reachable(wider, change) implies
                    -wider.len() <= change <= wider.len() && changes@.contains(change as i32) by {
                    assert(number_reachable(seen, change + 1));
                    let i = choose|i: int| 0 <= i < before.len() && before[i] == (change + 1) as i32;
                    assert(changes@[i] == change);
                }
                assert forall|i: int| 0 <= i < changes@.len() implies #[trigger] number_reachable(
                    wider,
                    changes@[i] as int,
                ) by {
                    assert(number_reachable(seen, before[i] as int));
                    assert(changes@[i] == before[i] - 1);
                }
            }
        } else if symbol == 'x' || symbol == 'y' {
            let mut both: Vec<i32> = shift_changes(&changes, 1);
            let mut lowered: Vec<i32> = shift_changes(&changes, -1);
            let ghost up = both@;
            let ghost down = lowered@;
            both.append(&mut lowered);
            changes = ordered::sort_dedup(&both);
            proof {
                assert forall|change: int| #[trigger] number_reachable(wider, change) implies
                    -wider.len() <= change <= wider.len() && changes@.contains(change as i32) by {
                    if number_reachable(seen, change - 1) {
                        let i = choose|i: int|
                            0 <= i < before.len() && before[i] == (change - 1) as i32;
                        assert(both@[i] == up[i]);
                        assert(both@[i] == change);
                    } else {
                        assert(number_reachable(seen, change + 1));
                        let i = choose|i: int|
                            0 <= i < before.len() && before[i] == (change + 1) as i32;
                        assert(both@[up.len() + i] == down[i]);
                        assert(both@[up.len() + i] == change);
                    }
                    assert(both@.contains(change as i32));
                }
                assert forall|i: int| 0 <= i < changes@.len() implies #[trigger] number_reachable(
                    wider,
                    changes@[i] as int,
                ) by {
                    assert(changes@.contains(changes@[i]));
                    let p = choose|p: int| 0 <= p < both@.len() && both@[p] == changes@[i];
                    if p < up.len() {
                        assert(both@[p] == up[p]);
                        assert(number_reachable(seen, before[p] as int));
                    } else {
                        assert(both@[p] == down[p - up.len()]);
                        assert(number_reachable(seen, before[p - up.len()] as int));
                    }
                }
            }
        } else if symbol == 'I' || symbol == 'n' || symbol == 'z' || symbol == '|' {
            proof {
                assert forall|change: int| #[trigger] number_reachable(wider, change) implies
                    -wider.len() <= change <= wider.len() && changes@.contains(change as i32) by {
                    assert(number_reachable(seen, change));
                }
                assert forall|i: int| 0 <= i < changes@.len() implies #[trigger] number_reachable(
                    wider,
                    changes@[i] as int,
                ) by {
                    assert(number_reachable(seen, before[i] as int));
                }
            }
        } else {
            assert(operator@[next as int] == symbol);
            return Err(QmbedError::InvalidOperator(OperatorFault::Whole));
        }
        proof {
            assert forall|i: int| 0 <= i < wider.len() implies #[trigger] wider[i] == '+'
                || wider[i] == '-' || number_mixing(wider[i]) || number_neutral(wider[i]) by {
                if i < next {
                    assert(wider[i] == seen[i]);
                }
            }
        }
        next += 1;
    }
    proof {
        assert(text@.take(next as int) =~= operator@);
        assert forall|change: i32| #[trigger] changes@.contains(change) <==> number_reachable(
            operator@,
            change as int,
        ) by {
            if changes@.contains(change) {
                let i = choose|i: int| 0 <= i < changes@.len() && changes@[i] == change;
                assert(number_reachable(operator@, changes@[i] as int));
            }
        }
    }
    Ok(changes)
}

/// Whether the list holds the number.
pub open spec fn lists_number(list: Seq<usize>, number: int) -> bool {
    exists|i: int| 0 <= i < list.len() && #[trigger] list[i] == number
}

/// Whether a particle number is among the selected ones.
pub open spec fn sector_selected(
    fixed: Option<usize>,
    sectors: Option<Seq<usize>>,
    sector: int,
) -> bool {
    match sectors {
        Some(selected) => lists_number(selected, sector),
        None => fixed is Some && fixed->0 == sector,
    }
}

/// Whether a particle number is admitted: any number where nothing is selected.
pub open spec fn number_admitted(
    fixed: Option<usize>,
    sectors: Option<Seq<usize>>,
    number: int,
) -> bool {
    (fixed is None && sectors is None) || sector_selected(fixed, sectors, number)
}

/// Whether every change leads from `source` to a selected number, or out of range.
pub open spec fn source_preserved(
    fixed: Option<usize>,
    sectors: Option<Seq<usize>>,
    maximum: usize,
    changes: Seq<i32>,
    source: usize,
) -> bool {
    forall|i: int|
        0 <= i < changes.len() ==> {
            let target = source + #[trigger] changes[i];
            target < 0 || target > maximum || sector_selected(fixed, sectors, target)
        }
}

/// Whether every number of the union leads only to numbers of the union.
pub open spec fn sources_preserved(
    fixed: Option<usize>,
    selected: Seq<usize>,
    maximum: usize,
    changes: Seq<i32>,
) -> bool {
    forall|i: int|
        0 <= i < selected.len() ==> source_preserved(
            fixed,
            Some(selected),
            maximum,
            changes,
            #[trigger] selected[i],
        )
}

/// Whether the changes keep every selected number among the selected ones.
pub open spec fn changes_preserved(
    fixed: Option<usize>,
    sectors: Option<Seq<usize>>,
    maximum: usize,
    changes: Seq<i32>,
) -> bool {
    match sectors {
        Some(selected) => sources_preserved(fixed, selected, maximum, changes),
        None => fixed matches Some(source) ==> source_preserved(
            fixed,
            sectors,
            maximum,
            changes,
            source,
        ),
    }
}

/// The sequence behind an optional list.
pub open spec fn optional_seq(sectors: Option<&Vec<usize>>) -> Option<Seq<usize>> {
    match sectors {
        Some(list) => Some(list@),
        None => None,
    }
}

fn source_preserves(
    fixed: Option<usize>,
    sectors: Option<&Vec<usize>>,
    maximum: usize,
    changes: &Vec<i32>,
    source: usize,
) -> (answer: bool)
    requires
        sectors matches Some(list) ==> ordered::strictly_sorted(list@),
    ensures
        answer == source_preserved(fixed, optional_seq(sectors), maximum, changes@, source),
{
    let mut i: usize = 0;
    while i < changes.len()
        invariant
            i <= changes@.len(),
            sectors matches Some(list) ==> ordered::strictly_sorted(list@),
            forall|j: int|
                0 <= j < i ==> {
                    let target = source + #[trigger] changes@[j];
                    target < 0 || target > maximum || sector_selected(
                        fixed,
                        optional_seq(sectors),
                        target,
                    )
                },
        decreases changes@.len() - i,
    {
        let target: i128 = source as i128 + changes[i] as i128;
        if target >= 0 && target <= maximum as i128 {
            let sector: usize = target as usize;
            let selected: bool = match sectors {
                Some(list) => match ordered::find(list, sector) {
                    Some(place) => {
                        assert(list@[place as int] == target);
                        assert(lists_number(list@, target as int));
                        true
                    },
                    None => {
                        assert forall|p: int| 0 <= p < list@.len() implies list@[p] != target by {
                            assert(list@.contains(list@[p]));
                        }
                        false
                    },
                },
                None => match fixed {
                    Some(count) => count == sector,
                    None => false,
                },
            };
            assert(selected == sector_selected(fixed, optional_seq(sectors), target as int)) by {
                assert(sector == target);
            }
            if !selected {
                return false;
            }
        }
        i += 1;
    }
    true
}

/// Whether an operator that makes these changes keeps the selected sectors.
///
/// Where nothing is selected every operator is kept.
pub fn selected_sectors_preserve_changes(
    fixed: Option<usize>,
    sectors: Option<&Vec<usize>>,
    maximum: usize,
    changes: &Vec<i32>,
) -> (answer: bool)
    requires
        sectors matches Some(list) ==> ordered::strictly_sorted(list@),
    ensures
        answer == changes_preserved(fixed, optional_seq(sectors), maximum, changes@),
{
    match sectors {
        Some(list) => {
            let mut i: usize = 0;
            while i < list.len()
                invariant
                    i <= list@.len(),
                    sectors == Some(list),
                    optional_seq(sectors) == Some(list@),
                    ordered::strictly_sorted(list@),
                    forall|j: int|
                        0 <= j < i ==> source_preserved(
                            fixed,
                            Some(list@),
                            maximum,
                            changes@,
                            #[trigger] list@[j],
                        ),
                decreases list@.len() - i,
            {
                if !source_preserves(fixed, sectors, maximum, changes, list[i]) {
                    assert(!source_preserved(fixed, Some(list@), maximum, changes@, list@[i as int]));
                    assert(!sources_preserved(fixed, list@, maximum, changes@));
                    return false;
                }
                i += 1;
            }
            true
        },
        None => match fixed {
            Some(source) => source_preserves(fixed, sectors, maximum, changes, source),
            None => true,
        },
    }
}

/// Whether every change that the operator can make leads from `source` to a
/// selected number, or out of range.
pub open spec fn operator_keeps_source(
    fixed: Option<usize>,
    sectors: Option<Seq<usize>>,
    maximum: usize,
    operator: Seq<char>,
    source: usize,
) -> bool {
    forall|change: int| #[trigger]
        number_reachable(operator, change) ==> {
            let target = source + change;
            target < 0 || target > maximum || sector_selected(fixed, sectors, target)
        }
}

/// Whether the operator keeps every number of the union within the union.
pub open spec fn operator_keeps_union(
    fixed: Option<usize>,
    selected: Seq<usize>,
    maximum: usize,
    operator: Seq<char>,
) -> bool {
    forall|i: int|
        0 <= i < selected.len() ==> operator_keeps_source(
            fixed,
            Some(selected),
            maximum,
            operator,
            #[trigger] selected[i],
        )
}

/// Whether an operator string keeps the selected particle numbers.
pub open spec fn operator_keeps_selection(
    fixed: Option<usize>,
    sectors: Option<Seq<usize>>,
    maximum: usize,
    operator: Seq<char>,
) -> core::result::Result<bool, QmbedError> {
    if !number_symbols_known(operator) {
        Err(QmbedError::InvalidOperator(OperatorFault::Whole))
    } else {
        Ok(
            match sectors {
                Some(selected) => operator_keeps_union(fixed, selected, maximum, operator),
                None => match fixed {
                    Some(source) => operator_keeps_source(fixed, None, maximum, operator, source),
                    None => true,
                },
            },
        )
    }
}

proof fn lemma_source_by_changes(
    fixed: Option<usize>,
    sectors: Option<Seq<usize>>,
    maximum: usize,
    operator: Seq<char>,
    changes: Seq<i32>,
    source: usize,
)
    requires
        forall|change: i32| #[trigger]
            changes.contains(change) <==> number_reachable(operator, change as int),
        forall|change: int| #[trigger]
            number_reachable(operator, change) ==> i32::MIN <= change <= i32::MAX,
    ensures
        source_preserved(fixed, sectors, maximum, changes, source) == operator_keeps_source(
            fixed,
            sectors,
            maximum,
            operator,
            source,
        ),
{
    if source_preserved(fixed, sectors, maximum, changes, source) {
        assert forall|change: int| #[trigger] number_reachable(operator, change) implies {
            let target = source + change;
            target < 0 || target > maximum || sector_selected(fixed, sectors, target)
        } by {
            assert(changes.contains(change as i32));
            let i = choose|i: int| 0 <= i < changes.len() && changes[i] == change as i32;
            assert(changes[i] == change);
        }
    }
    if operator_keeps_source(fixed, sectors, maximum, operator, source) {
        assert forall|i: int| 0 <= i < changes.len() implies {
            let target = source + #[trigger] changes[i];
            target < 0 || target > maximum || sector_selected(fixed, sectors, target)
        } by {
            assert(changes.contains(changes[i]));
            assert(number_reachable(operator, changes[i] as int));
        }
    }
}

/// Whether an operator string keeps the selected particle numbers.
pub fn operator_keeps_sectors(
    fixed: Option<usize>,
    sectors: Option<&Vec<usize>>,
    maximum: usize,
    operator: &str,
) -> (result: Result<bool>)
    requires
        operator@.len() < i32::MAX,
        sectors matches Some(list) ==> ordered::strictly_sorted(list@),
    ensures
        result == operator_keeps_selection(fixed, optional_seq(sectors), maximum, operator@),
{
    let changes: Vec<i32> = match operator_number_changes(operator) {
        Ok(changes) => changes,
        Err(error) => {
            return Err(error);
        },
    };
    let answer: bool = selected_sectors_preserve_changes(fixed, sectors, maximum, &changes);
    proof {
        match sectors {
            Some(list) => {
                assert forall|i: int| 0 <= i < list@.len() implies source_preserved(
                    fixed,
                    Some(list@),
                    maximum,
                    changes@,
                    #[trigger] list@[i],
                ) == operator_keeps_source(
                    fixed,
                    Some(list@),
                    maximum,
                    operator@,
                    list@[i],
                ) by {
                    lemma_source_by_changes(
                        fixed,
                        Some(list@),
                        maximum,
                        operator@,
                        changes@,
                        list@[i],
                    );
                }
                assert(sources_preserved(fixed, list@, maximum, changes@) == operator_keeps_union(
                    fixed,
                    list@,
                    maximum,
                    operator@,
                )) by {
                    if sources_preserved(fixed, list@, maximum, changes@) {
                        assert(operator_keeps_union(fixed, list@, maximum, operator@));
                    }
                    if operator_keeps_union(fixed, list@, maximum, operator@) {
                        assert(sources_preserved(fixed, list@, maximum, changes@));
                    }
                }
            },
            None => {
                if let Some(source) = fixed {
                    lemma_source_by_changes(fixed, None, maximum, operator@, changes@, source);
                }
            },
        }
    }
    Ok(answer)
}

/// Refusal of a union of particle sectors, if it is refused.
pub open spec fn particle_sectors_error(
    sectors: Seq<usize>,
    maximum: usize,
    empty: &'static str,
    excess: &'static str,
) -> Option<QmbedError> {
    if sectors.len() == 0 {
        Some(QmbedError::InvalidSector(Reason::Text(empty)))
    } else if exists|i: int| 0 <= i < sectors.len() && #[trigger] sectors[i] > maximum {
        Some(QmbedError::InvalidSector(Reason::Text(excess)))
    } else {
        None
    }
}

/// The selected particle numbers in ascending order, each once.
///
/// `empty` and `excess` are the messages for an empty selection and for a number
/// beyond `maximum`.
pub fn canonical_particle_sectors(
    sectors: &Vec<usize>,
    maximum: usize,
    empty: &'static str,
    excess: &'static str,
) -> (result: Result<Vec<usize>>)
    ensures
        match result {
            Ok(canonical) => {
                &&& particle_sectors_error(sectors@, maximum, empty, excess) is None
                &&& ordered::strictly_sorted(canonical@)
                &&& forall|sector: usize| #[trigger]
                    canonical@.contains(sector) <==> sectors@.contains(sector)
                &&& canonical@.len() > 0
                &&& forall|i: int| 0 <= i < canonical@.len() ==> #[trigger] canonical@[i] <= maximum
            },
            Err(error) => particle_sectors_error(sectors@, maximum, empty, excess) == Some(error),
        },
{
    if sectors.len() == 0 {
        return Err(QmbedError::InvalidSector(Reason::Text(empty)));
    }
    let mut i: usize = 0;
    while i < sectors.len()
        invariant
            i <= sectors@.len(),
            sectors@.len() > 0,
            forall|j: int| 0 <= j < i ==> #[trigger] sectors@[j] <= maximum,
        decreases sectors@.len() - i,
    {
        if sectors[i] > maximum {
            return Err(QmbedError::InvalidSector(Reason::Text(excess)));
        }
        i += 1;
    }
    let canonical: Vec<usize> = ordered::sort_dedup(sectors);
    proof {
        assert(sectors@.contains(sectors@[0]));
        assert(canonical@.contains(sectors@[0]));
        assert forall|p: int| 0 <= p < canonical@.len() implies #[trigger] canonical@[p]
            <= maximum by {
            assert(canonical@.contains(canonical@[p]));
            let q = choose|q: int| 0 <= q < sectors@.len() && sectors@[q] == canonical@[p];
        }
    }
    Ok(canonical)
}

} // verus!

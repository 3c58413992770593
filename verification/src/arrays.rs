//! States as rows of local occupations.

use vstd::arithmetic::div_mod::*;
use vstd::arithmetic::mul::*;
use vstd::arithmetic::power2::*;
use vstd::prelude::*;

use crate::bits;
use crate::digits;
use crate::error::{QmbedError, Reason, Result};
use crate::lattice;

verus! {

/// Occupations of a packed state, the lowest site first.
pub open spec fn digits_row(state: nat, base: nat, sites: nat) -> Seq<usize> {
    Seq::new(sites, |site: int| digits::digit(state, base, site as nat) as usize)
}

/// The packed state of a row of occupations, the lowest site first.
pub open spec fn packed_row(row: Seq<usize>, base: nat) -> nat
    decreases row.len(),
{
    if row.len() == 0 {
        0
    } else {
        packed_row(row.drop_last(), base) + row.last() as nat * digits::power(
            base,
            (row.len() - 1) as nat,
        )
    }
}

/// Whether a row has the right length and its occupations are below the local dimension.
pub open spec fn row_fits(row: Seq<usize>, sites: nat, local_dimension: usize) -> bool {
    &&& row.len() == sites
    &&& forall|i: int| 0 <= i < row.len() ==> #[trigger] row[i] < local_dimension
}

/// Digits of a packed row.
pub proof fn lemma_packed_row(row: Seq<usize>, base: nat)
    requires
        base > 0,
        forall|i: int| 0 <= i < row.len() ==> #[trigger] row[i] < base,
    ensures
        packed_row(row, base) < digits::power(base, row.len()),
        forall|site: nat|
            site < row.len() ==> #[trigger] digits::digit(packed_row(row, base), base, site)
                == row[site as int],
    decreases row.len(),
{
    if row.len() > 0 {
        let rest = row.drop_last();
        let e = rest.len();
        let low = packed_row(rest, base);
        let high = row.last() as nat;
        let p = digits::power(base, e);
        assert forall|i: int| 0 <= i < rest.len() implies #[trigger] rest[i] < base by {
            assert(row[i] < base);
        }
        lemma_packed_row(rest, base);
        assert(row[row.len() - 1] < base);
        assert(high * p + low < base * p) by (nonlinear_arith)
            requires
                high + 1 <= base,
                low < p,
        ;
        assert forall|site: nat| site < row.len() implies #[trigger] digits::digit(
            packed_row(row, base),
            base,
            site,
        ) == row[site as int] by {
            lattice::lemma_digit_join(high, low, e, base, site);
            if site < e {
                assert(digits::digit(low, base, site) == rest[site as int]);
            } else {
                assert(high / 1 == high);
                lemma_small_mod(high, base);
            }
        }
    }
}

/// Taking a row of occupations apart and packing it again changes nothing, in either
/// order.
pub proof fn law_rows_round_trip(row: Seq<usize>, state: nat, local_dimension: usize, sites: nat)
    requires
        local_dimension >= 1,
        row_fits(row, sites, local_dimension),
        state < digits::power(local_dimension as nat, sites),
    ensures
        digits_row(packed_row(row, local_dimension as nat), local_dimension as nat, sites) == row,
        packed_row(digits_row(state, local_dimension as nat, sites), local_dimension as nat)
            == state,
{
    let base = local_dimension as nat;
    lemma_packed_row(row, base);
    let back = digits_row(packed_row(row, base), base, sites);
    assert forall|i: int| 0 <= i < sites implies back[i] == row[i] by {
        assert(digits::digit(packed_row(row, base), base, i as nat) == row[i]);
    }
    assert(back =~= row);
    let list = digits_row(state, base, sites);
    assert forall|i: int| 0 <= i < list.len() implies #[trigger] list[i] < base && list[i]
        == digits::digit(state, base, i as nat) by {
        digits::lemma_power_positive(base, i as nat);
        lemma_mod_bound((state / digits::power(base, i as nat)) as int, base as int);
    }
    lemma_packed_row(list, base);
    assert forall|site: nat| site < sites implies #[trigger] digits::digit(
        packed_row(list, base),
        base,
        site,
    ) == digits::digit(state, base, site) by {
        assert(list[site as int] == digits::digit(state, base, site));
    }
    lattice::lemma_digits_identify(packed_row(list, base), state, sites, base);
}

/// Whether a state has more digits than there are sites.
pub open spec fn some_too_wide(states: Seq<u128>, limit: nat) -> bool {
    exists|i: int| 0 <= i < states.len() && #[trigger] states[i] >= limit
}

/// Occupations of packed states, the lowest site first.
pub fn states_to_array(states: &[u128], sites: usize, local_dimension: usize) -> (result: Result<
    Vec<Vec<usize>>,
>)
    ensures
        match result {
            Ok(rows) => {
                &&& local_dimension >= 2
                &&& !some_too_wide(
                    states@,
                    digits::power(local_dimension as nat, sites as nat),
                )
                &&& rows@.len() == states@.len()
                &&& forall|i: int|
                    0 <= i < rows@.len() ==> (#[trigger] rows@[i])@ == digits_row(
                        states@[i] as nat,
                        local_dimension as nat,
                        sites as nat,
                    )
            },
            Err(error) => if local_dimension < 2 {
                error == QmbedError::InvalidSector(Reason::Text("local dimension must be at least two"))
            } else {
                &&& some_too_wide(
                    states@,
                    digits::power(local_dimension as nat, sites as nat),
                )
                &&& error == QmbedError::StateNotInBasis
            },
        },
{
    if local_dimension < 2 {
        return Err(QmbedError::InvalidSector(Reason::Text("local dimension must be at least two")));
    }
    let base: u128 = local_dimension as u128;
    let ghost k = base as nat;
    let mut rows: Vec<Vec<usize>> = Vec::new();
    let mut next: usize = 0;
    while next < states.len()
        invariant
            next <= states@.len(),
            local_dimension >= 2,
            base == local_dimension,
            k == base,
            rows@.len() == next,
            forall|i: int|
                0 <= i < next ==> (#[trigger] rows@[i])@ == digits_row(
                    states@[i] as nat,
                    k,
                    sites as nat,
                ),
            forall|i: int|
                0 <= i < next ==> #[trigger] states@[i] < digits::power(k, sites as nat),
        decreases states@.len() - next,
    {
        let state: u128 = states[next];
        let mut value: u128 = state;
        let mut row: Vec<usize> = Vec::new();
        let mut site: usize = 0;
        assert(state as nat / 1 == state);
        while site < sites
            invariant
                site <= sites,
                base >= 2,
                base == local_dimension,
                k == base,
                value == state as nat / digits::power(k, site as nat),
                row@ == digits_row(state as nat, k, site as nat),
            decreases sites - site,
        {
            proof {
                let p = digits::power(k, site as nat);
                digits::lemma_power_positive(k, site as nat);
                lemma_mul_is_commutative(k as int, p as int);
                lemma_div_denominator(state as int, p as int, k as int);
                lemma_mod_bound(value as int, k as int);
            }
            row.push((value % base) as usize);
            value = value / base;
            site += 1;
            assert(row@ =~= digits_row(state as nat, k, site as nat));
        }
        proof {
            let p = digits::power(k, sites as nat);
            digits::lemma_power_positive(k, sites as nat);
            if state < p {
                lemma_basic_div(state as int, p as int);
            } else {
                lemma_div_is_ordered(p as int, state as int, p as int);
                lemma_div_by_self(p as int);
            }
        }
        if value != 0 {
            assert(states@[next as int] >= digits::power(k, sites as nat));
            return Err(QmbedError::StateNotInBasis);
        }
        rows.push(row);
        next += 1;
    }
    Ok(rows)
}

/// Whether a row does not fit.
pub open spec fn some_row_misfits(
    arrays: Seq<Vec<usize>>,
    sites: nat,
    local_dimension: usize,
) -> bool {
    exists|i: int|
        0 <= i < arrays.len() && !row_fits((#[trigger] arrays[i])@, sites, local_dimension)
}

/// Why rows of occupations are refused, if they are.
pub open spec fn rows_error(arrays: Seq<Vec<usize>>, local_dimension: usize) -> Option<QmbedError> {
    let sites = arrays[0]@.len();
    if local_dimension < 2 {
        Some(QmbedError::InvalidSector(Reason::Text("local dimension must be at least two")))
    } else if arrays.len() == 0 {
        None
    } else if !row_fits(arrays[0]@, sites, local_dimension) {
        Some(
            QmbedError::InvalidSector(Reason::Text("occupation arrays must have equal length and valid digits")),
        )
    } else if digits::power(local_dimension as nat, sites) > u128::MAX {
        Some(QmbedError::UnsupportedBackend(Reason::Text("state encoding overflow")))
    } else if some_row_misfits(arrays, sites, local_dimension) {
        Some(
            QmbedError::InvalidSector(Reason::Text("occupation arrays must have equal length and valid digits")),
        )
    } else {
        None
    }
}

/// Whether a row fits.
fn check_row(row: &Vec<usize>, sites: usize, local_dimension: usize) -> (answer: bool)
    ensures
        answer == row_fits(row@, sites as nat, local_dimension),
{
    if row.len() != sites {
        return false;
    }
    let mut next: usize = 0;
    while next < row.len()
        invariant
            next <= row@.len(),
            forall|i: int| 0 <= i < next ==> #[trigger] row@[i] < local_dimension,
        decreases row@.len() - next,
    {
        if row[next] >= local_dimension {
            return false;
        }
        next += 1;
    }
    true
}

/// The packed state of one row, unless a place value does not fit.
fn pack_row(row: &Vec<usize>, base: u128) -> (result: Option<u128>)
    requires
        base >= 2,
        forall|i: int| 0 <= i < row@.len() ==> #[trigger] row@[i] < base,
    ensures
        match result {
            Some(state) => {
                &&& digits::power(base as nat, row@.len()) <= u128::MAX
                &&& state == packed_row(row@, base as nat)
            },
            None => digits::power(base as nat, row@.len()) > u128::MAX,
        },
{
    let ghost k = base as nat;
    let mut state: u128 = 0;
    let mut place: u128 = 1;
    let mut next: usize = 0;
    assert(row@.take(0) =~= Seq::empty());
    while next < row.len()
        invariant
            next <= row@.len(),
            base >= 2,
            k == base,
            forall|i: int| 0 <= i < row@.len() ==> #[trigger] row@[i] < base,
            place == digits::power(k, next as nat),
            state == packed_row(row@.take(next as int), k),
        decreases row@.len() - next,
    {
        let occupation: u128 = row[next] as u128;
        proof {
            let more = row@.take(next + 1);
            assert(more.drop_last() =~= row@.take(next as int));
            assert forall|i: int| 0 <= i < more.len() implies #[trigger] more[i] < k by {
                assert(row@[i] < base);
            }
            lemma_packed_row(more, k);
            digits::lemma_power_monotone(k, (next + 1) as nat, row@.len());
            lemma_mul_is_commutative(place as int, base as int);
            lemma_mul_is_commutative(place as int, occupation as int);
            assert(occupation * place >= 0) by (nonlinear_arith)
                requires
                    occupation >= 0,
                    place >= 0,
            ;
        }
        match place.checked_mul(base) {
            Some(wider) => {
                state = state + occupation * place;
                place = wider;
            },
            None => {
                return None;
            },
        }
        next += 1;
    }
    assert(row@.take(next as int) =~= row@);
    Some(state)
}

/// Packed states of rows of occupations, the lowest site first.
pub fn array_to_states(arrays: &[Vec<usize>], local_dimension: usize) -> (result: Result<Vec<u128>>)
    ensures
        match result {
            Ok(states) => {
                &&& rows_error(arrays@, local_dimension) is None
                &&& states@.len() == arrays@.len()
                &&& forall|i: int|
                    0 <= i < states@.len() ==> #[trigger] states@[i] == packed_row(
                        arrays@[i]@,
                        local_dimension as nat,
                    )
            },
            Err(error) => rows_error(arrays@, local_dimension) == Some(error),
        },
{
    if local_dimension < 2 {
        return Err(QmbedError::InvalidSector(Reason::Text("local dimension must be at least two")));
    }
    let mut states: Vec<u128> = Vec::new();
    if arrays.len() == 0 {
        return Ok(states);
    }
    let sites: usize = arrays[0].len();
    let base: u128 = local_dimension as u128;
    let ghost all = arrays@;
    let mut next: usize = 0;
    while next < arrays.len()
        invariant
            next <= all.len(),
            all == arrays@,
            all.len() > 0,
            local_dimension >= 2,
            base == local_dimension,
            sites == all[0]@.len(),
            states@.len() == next,
            next > 0 ==> digits::power(base as nat, sites as nat) <= u128::MAX,
            forall|i: int|
                0 <= i < next ==> row_fits((#[trigger] all[i])@, sites as nat, local_dimension),
            forall|i: int|
                0 <= i < next ==> #[trigger] states@[i] == packed_row(all[i]@, base as nat),
        decreases all.len() - next,
    {
        let row: &Vec<usize> = &arrays[next];
        if !check_row(row, sites, local_dimension) {
            proof {
                assert(!row_fits(all[next as int]@, sites as nat, local_dimension));
                if next > 0 {
                    assert(row_fits(all[0]@, sites as nat, local_dimension));
                }
            }
            return Err(
                QmbedError::InvalidSector(
                    Reason::Text("occupation arrays must have equal length and valid digits"),
                ),
            );
        }
        match pack_row(row, base) {
            Some(state) => {
                states.push(state);
            },
            None => {
                return Err(QmbedError::UnsupportedBackend(Reason::Text("state encoding overflow")));
            },
        }
        next += 1;
    }
    Ok(states)
}

/// Bits of a packed state, the highest site first.
pub open spec fn bits_row(state: nat, sites: nat) -> Seq<u8> {
    Seq::new(
        sites,
        |column: int| ((state / pow2((sites - column - 1) as nat)) % 2) as u8,
    )
}

/// The packed state of a row of bits, the highest site first.
pub open spec fn packed_bits(row: Seq<u8>) -> nat
    decreases row.len(),
{
    if row.len() == 0 {
        0
    } else {
        packed_bits(row.drop_last()) * 2 + row.last() as nat
    }
}

/// Whether a row of bits has the right length and holds only zeros and ones.
pub open spec fn bits_fit(row: Seq<u8>, sites: nat) -> bool {
    &&& row.len() == sites
    &&& forall|i: int| 0 <= i < row.len() ==> #[trigger] row[i] <= 1
}

proof fn lemma_packed_bits(row: Seq<u8>)
    requires
        bits_fit(row, row.len()),
    ensures
        packed_bits(row) < pow2(row.len()),
    decreases row.len(),
{
    if row.len() == 0 {
        lemma2_to64();
    } else {
        let rest = row.drop_last();
        assert forall|i: int| 0 <= i < rest.len() implies #[trigger] rest[i] <= 1 by {
            assert(row[i] <= 1);
        }
        lemma_packed_bits(rest);
        lemma_pow2_unfold(row.len());
        assert(row[row.len() - 1] <= 1);
    }
}

/// The bits of a state without its lowest one.
proof fn lemma_bits_row_shorter(state: nat, sites: nat)
    requires
        sites > 0,
    ensures
        bits_row(state, sites).drop_last() == bits_row(state / 2, (sites - 1) as nat),
        bits_row(state, sites).last() == (state % 2) as u8,
{
    let row = bits_row(state, sites);
    let rest = bits_row(state / 2, (sites - 1) as nat);
    assert forall|column: int| 0 <= column < rest.len() implies row[column] == rest[column] by {
        let e = (sites - column - 2) as nat;
        lemma_pow2_unfold(e + 1);
        lemma_pow2_pos(e);
        lemma_div_denominator(state as int, 2, pow2(e) as int);
    }
    assert(row.drop_last() =~= rest);
    lemma2_to64();
    assert(state / 1 == state);
}

proof fn lemma_bits_round_trip(state: nat, sites: nat)
    requires
        state < pow2(sites),
    ensures
        packed_bits(bits_row(state, sites)) == state,
        bits_fit(bits_row(state, sites), sites),
    decreases sites,
{
    if sites == 0 {
        lemma2_to64();
    } else {
        lemma_pow2_unfold(sites);
        lemma_bits_row_shorter(state, sites);
        lemma_bits_round_trip(state / 2, (sites - 1) as nat);
    }
}

proof fn lemma_row_round_trip(row: Seq<u8>)
    requires
        bits_fit(row, row.len()),
    ensures
        bits_row(packed_bits(row), row.len()) == row,
    decreases row.len(),
{
    if row.len() > 0 {
        let rest = row.drop_last();
        assert forall|i: int| 0 <= i < rest.len() implies #[trigger] rest[i] <= 1 by {
            assert(row[i] <= 1);
        }
        lemma_row_round_trip(rest);
        assert(row[row.len() - 1] <= 1);
        let state = packed_bits(row);
        assert(state / 2 == packed_bits(rest));
        assert(state % 2 == row.last() as nat);
        lemma_bits_row_shorter(state, row.len());
        let back = bits_row(state, row.len());
        assert(back.drop_last().push(back.last()) =~= back);
        assert(rest.push(row.last()) =~= row);
    } else {
        assert(bits_row(packed_bits(row), 0) =~= row);
    }
}

/// Writing a state as bits and reading it again changes nothing, in either order.
pub proof fn law_bits_round_trip(row: Seq<u8>, state: nat, sites: nat)
    requires
        bits_fit(row, sites),
        state < pow2(sites),
    ensures
        bits_row(packed_bits(row), sites) == row,
        packed_bits(bits_row(state, sites)) == state,
{
    lemma_row_round_trip(row);
    lemma_bits_round_trip(state, sites);
}

/// Converts integer states to most-significant-site-first binary rows.
pub fn ints_to_array(states: &[u128], sites: usize) -> (result: Result<Vec<Vec<u8>>>)
    ensures
        match result {
            Ok(rows) => {
                &&& sites <= 128
                &&& !some_too_wide(states@, pow2(sites as nat))
                &&& rows@.len() == states@.len()
                &&& forall|i: int|
                    0 <= i < rows@.len() ==> (#[trigger] rows@[i])@ == bits_row(
                        states@[i] as nat,
                        sites as nat,
                    )
            },
            Err(error) => if sites > 128 {
                error == QmbedError::UnsupportedBackend(
                    Reason::Text("u128 binary conversion supports at most 128 sites"),
                )
            } else {
                &&& some_too_wide(states@, pow2(sites as nat))
                &&& error == QmbedError::StateNotInBasis
            },
        },
{
    if sites > 128 {
        return Err(
            QmbedError::UnsupportedBackend(Reason::Text("u128 binary conversion supports at most 128 sites")),
        );
    }
    proof {
        bits::lemma_pow2_128();
        if sites < 128 {
            bits::lemma_shl_one(sites as u32);
        }
    }
    let mut next: usize = 0;
    while next < states.len()
        invariant
            next <= states@.len(),
            sites <= 128,
            sites < 128 ==> 1u128 << sites == pow2(sites as nat),
            pow2(128) == u128::MAX + 1,
            forall|i: int| 0 <= i < next ==> #[trigger] states@[i] < pow2(sites as nat),
        decreases states@.len() - next,
    {
        if sites < 128 && states[next] >= (1u128 << sites) {
            assert(states@[next as int] >= pow2(sites as nat));
            return Err(QmbedError::StateNotInBasis);
        }
        next += 1;
    }
    let mut rows: Vec<Vec<u8>> = Vec::new();
    next = 0;
    while next < states.len()
        invariant
            next <= states@.len(),
            sites <= 128,
            rows@.len() == next,
            forall|i: int|
                0 <= i < next ==> (#[trigger] rows@[i])@ == bits_row(
                    states@[i] as nat,
                    sites as nat,
                ),
        decreases states@.len() - next,
    {
        let state: u128 = states[next];
        let mut row: Vec<u8> = Vec::new();
        let mut column: usize = 0;
        while column < sites
            invariant
                column <= sites,
                sites <= 128,
                row@ == bits_row(state as nat, sites as nat).take(column as int),
            decreases sites - column,
        {
            let shift: usize = sites - column - 1;
            proof {
                bits::lemma_shl_one(shift as u32);
                lemma_pow2_pos(shift as nat);
            }
            row.push(((state / (1u128 << shift)) % 2) as u8);
            column += 1;
            assert(row@ =~= bits_row(state as nat, sites as nat).take(column as int));
        }
        assert(row@ =~= bits_row(state as nat, sites as nat));
        rows.push(row);
        next += 1;
    }
    Ok(rows)
}

/// Whether a row of bits does not fit.
pub open spec fn some_bits_misfit(arrays: Seq<Vec<u8>>, sites: nat) -> bool {
    exists|i: int| 0 <= i < arrays.len() && !bits_fit((#[trigger] arrays[i])@, sites)
}

/// Converts most-significant-site-first binary rows to integer states.
pub fn array_to_ints(arrays: &[Vec<u8>]) -> (result: Result<Vec<u128>>)
    ensures
        ({
            let sites = if arrays@.len() == 0 {
                0
            } else {
                arrays@[0]@.len()
            };
            match result {
                Ok(states) => {
                    &&& sites <= 128
                    &&& !some_bits_misfit(arrays@, sites)
                    &&& states@.len() == arrays@.len()
                    &&& forall|i: int|
                        0 <= i < states@.len() ==> #[trigger] states@[i] == packed_bits(
                            arrays@[i]@,
                        )
                },
                Err(error) => if sites > 128 {
                    error == QmbedError::UnsupportedBackend(
                        Reason::Text("u128 binary conversion supports at most 128 sites"),
                    )
                } else {
                    &&& some_bits_misfit(arrays@, sites)
                    &&& error == QmbedError::InvalidSector(
                        Reason::Text("binary state rows must have equal lengths and contain only zero or one"),
                    )
                },
            }
        }),
{
    let sites: usize = if arrays.len() == 0 {
        0
    } else {
        arrays[0].len()
    };
    if sites > 128 {
        return Err(
            QmbedError::UnsupportedBackend(Reason::Text("u128 binary conversion supports at most 128 sites")),
        );
    }
    let ghost all = arrays@;
    let mut states: Vec<u128> = Vec::new();
    let mut next: usize = 0;
    while next < arrays.len()
        invariant
            next <= all.len(),
            all == arrays@,
            sites <= 128,
            sites == (if all.len() == 0 {
                0
            } else {
                all[0]@.len()
            }),
            states@.len() == next,
            forall|i: int| 0 <= i < next ==> bits_fit((#[trigger] all[i])@, sites as nat),
            forall|i: int| 0 <= i < next ==> #[trigger] states@[i] == packed_bits(all[i]@),
        decreases all.len() - next,
    {
        let row: &Vec<u8> = &arrays[next];
        let mut fits: bool = row.len() == sites;
        let mut state: u128 = 0;
        let mut column: usize = 0;
        assert(row@.take(0) =~= Seq::empty());
        while fits && column < row.len()
            invariant
                column <= row@.len(),
                fits ==> row@.len() == sites,
                sites <= 128,
                !fits ==> !bits_fit(row@, sites as nat),
                fits ==> forall|i: int| 0 <= i < column ==> #[trigger] row@[i] <= 1,
                fits ==> state == packed_bits(row@.take(column as int)),
            decreases row@.len() - column + (if fits {
                1int
            } else {
                0
            }),
        {
            let bit: u8 = row[column];
            if bit > 1 {
                fits = false;
            } else {
                proof {
                    let more = row@.take(column + 1);
                    assert(more.drop_last() =~= row@.take(column as int));
                    assert forall|i: int| 0 <= i < more.len() implies #[trigger] more[i] <= 1 by {
                        if i < column {
                            assert(row@[i] <= 1);
                        }
                    }
                    lemma_packed_bits(more);
                    bits::lemma_pow2_128();
                    if column + 1 < 128 {
                        lemma_pow2_strictly_increases((column + 1) as nat, 128);
                    }
                }
                state = state * 2 + bit as u128;
                column += 1;
            }
        }
        if !fits {
            assert(!bits_fit(all[next as int]@, sites as nat));
            return Err(
                QmbedError::InvalidSector(
                    Reason::Text("binary state rows must have equal lengths and contain only zero or one"),
                ),
            );
        }
        assert(row@.take(column as int) =~= row@);
        states.push(state);
        next += 1;
    }
    Ok(states)
}

} // verus!

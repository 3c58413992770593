//! The algebra of fermionic ladder operators.

use vstd::arithmetic::div_mod::*;
use vstd::arithmetic::mul::*;
use vstd::arithmetic::power2::*;
use vstd::prelude::*;

use crate::bits;
use crate::fermion;

verus! {

/// Whether a symbol creates or annihilates a fermion.
pub open spec fn is_ladder(symbol: char) -> bool {
    symbol == '+' || symbol == '-'
}

/// Two ladder operators, the second symbol first: the final state and the product of the signs.
pub open spec fn in_turn(state: u128, first: nat, a: char, second: nat, b: char) -> Option<
    (u128, int),
> {
    match fermion::fermion_step(state, second, b) {
        Ok(Some((middle, inner))) => match fermion::fermion_step(middle, first, a) {
            Ok(Some((target, outer))) => Some((target, outer.numerator * inner.numerator)),
            _ => None,
        },
        _ => None,
    }
}

/// Changing an occupation is flipping a binary digit.
proof fn lemma_toggled(state: u128, orbital: nat)
    requires
        orbital < 128,
    ensures
        fermion::toggled(state, orbital) == state ^ (1u128 << orbital as u32),
{
    let e = orbital as u32;
    let mask = 1u128 << e;
    bits::lemma_shl_one(e);
    bits::lemma_mask_selects(state, mask, orbital);
    fermion::lemma_bit_is_digit(state, orbital);
    assert(mask == 1u128 << e);
    assert(state & mask != 0 ==> state >= mask && state - mask == state ^ mask) by (bit_vector)
        requires
            mask == 1u128 << e,
            e < 128,
    ;
    assert(state & mask == 0 ==> state + mask == state ^ mask) by (bit_vector)
        requires
            mask == 1u128 << e,
            e < 128,
    ;
}

/// Only the digit of the orbital changes.
proof fn lemma_toggled_digits(state: u128, orbital: nat, position: nat)
    requires
        orbital < 128,
        position < 128,
    ensures
        bits::bit_at(fermion::toggled(state, orbital) as nat, position) == (if position == orbital {
            !bits::bit_at(state as nat, position)
        } else {
            bits::bit_at(state as nat, position)
        }),
{
    let e = orbital as u32;
    let p = position as u32;
    let mask = 1u128 << e;
    let other = 1u128 << p;
    lemma_toggled(state, orbital);
    bits::lemma_shl_one(e);
    bits::lemma_shl_one(p);
    bits::lemma_combined_digits(state, mask, position);
    bits::lemma_mask_selects(mask, other, position);
    assert((mask & other != 0) == (e == p)) by (bit_vector)
        requires
            mask == 1u128 << e,
            other == 1u128 << p,
            e < 128,
            p < 128,
    ;
}

/// Number of occupied orbitals before one.
spec fn occupied_before(state: u128, orbital: nat) -> int {
    bits::ones(state as nat % pow2(orbital)) as int
}

/// One where an orbital is occupied.
spec fn occupation(state: u128, orbital: nat) -> int {
    if bits::bit_at(state as nat, orbital) {
        1
    } else {
        0
    }
}

/// One more orbital adds its occupation to the number of occupied orbitals.
proof fn lemma_one_more(state: u128, orbital: nat)
    ensures
        occupied_before(state, orbital + 1) == occupied_before(state, orbital) + occupation(
            state,
            orbital,
        ),
{
    let low = state as nat % pow2(orbital);
    let digit = (state as nat / pow2(orbital)) % 2;
    lemma_pow2_pos(orbital);
    lemma_pow2_unfold(orbital + 1);
    lemma_mod_breakdown(state as int, pow2(orbital) as int, 2);
    lemma_mul_is_commutative(pow2(orbital) as int, 2);
    lemma_mul_is_commutative(pow2(orbital) as int, digit as int);
    lemma_mod_bound(state as int, pow2(orbital) as int);
    bits::lemma_ones_split(digit, low, orbital);
    reveal_with_fuel(bits::ones, 3);
}

/// Changing an occupation changes the number of occupied orbitals before the later ones.
proof fn lemma_occupied_before(state: u128, orbital: nat, before: nat)
    requires
        orbital < 128,
        before <= 128,
    ensures
        occupied_before(fermion::toggled(state, orbital), before) == occupied_before(state, before)
            + (if before <= orbital {
            0
        } else {
            1 - 2 * occupation(state, orbital)
        }),
    decreases before,
{
    let changed = fermion::toggled(state, orbital);
    if before == 0 {
        lemma2_to64();
        assert(pow2(before) == 1);
        lemma_mod_bound(state as int, pow2(before) as int);
        lemma_mod_bound(changed as int, pow2(before) as int);
    } else {
        let fewer = (before - 1) as nat;
        lemma_occupied_before(state, orbital, fewer);
        lemma_one_more(state, fewer);
        lemma_one_more(changed, fewer);
        lemma_toggled_digits(state, orbital, fewer);
        assert(fewer + 1 == before);
    }
}

proof fn lemma_sign_product(a: i128, b: i128)
    by (nonlinear_arith)
    requires
        a == 1 || a == -1,
        b == 1 || b == -1,
    ensures
        a * b == if a == b {
            1int
        } else {
            -1int
        },
{
}

/// Fermionic ladder operators on different orbitals anticommute: both orders act or neither
/// does, they reach the same state, and their signs are opposite.
pub proof fn law_ladder_operators_anticommute(
    state: u128,
    first: nat,
    a: char,
    second: nat,
    b: char,
)
    requires
        first < 128,
        second < 128,
        first != second,
        is_ladder(a),
        is_ladder(b),
    ensures
        match (in_turn(state, first, a, second, b), in_turn(state, second, b, first, a)) {
            (Some((left, sign)), Some((right, other))) => left == right && sign == -other,
            (None, None) => true,
            _ => false,
        },
{
    let (x, y) = (fermion::toggled(state, first), fermion::toggled(state, second));
    lemma_toggled_digits(state, first, second);
    lemma_toggled_digits(state, second, first);
    lemma_occupied_before(state, first, second);
    lemma_occupied_before(state, second, first);
    lemma_toggled(state, first);
    lemma_toggled(state, second);
    lemma_toggled(x, second);
    lemma_toggled(y, first);
    let m = 1u128 << first as u32;
    let n = 1u128 << second as u32;
    assert((state ^ m) ^ n == (state ^ n) ^ m) by (bit_vector);
    lemma_sign_product(fermion::passing_sign(y, first), fermion::passing_sign(state, second));
    lemma_sign_product(fermion::passing_sign(x, second), fermion::passing_sign(state, first));
}

/// On one orbital exactly one of creating after annihilating and annihilating after creating
/// acts, and it gives the state back without a sign.
pub proof fn law_ladder_operators_complete(state: u128, orbital: nat)
    requires
        orbital < 128,
    ensures
        in_turn(state, orbital, '+', orbital, '-') == (if bits::bit_at(state as nat, orbital) {
            Some((state, 1int))
        } else {
            None
        }),
        in_turn(state, orbital, '-', orbital, '+') == (if bits::bit_at(state as nat, orbital) {
            None
        } else {
            Some((state, 1int))
        }),
        in_turn(state, orbital, '+', orbital, '+') is None,
        in_turn(state, orbital, '-', orbital, '-') is None,
{
    let changed = fermion::toggled(state, orbital);
    lemma_toggled_digits(state, orbital, orbital);
    lemma_occupied_before(state, orbital, orbital);
    lemma_toggled(state, orbital);
    lemma_toggled(changed, orbital);
    let mask = 1u128 << orbital as u32;
    assert((state ^ mask) ^ mask == state) by (bit_vector);
    lemma_sign_product(
        fermion::passing_sign(changed, orbital),
        fermion::passing_sign(state, orbital),
    );
}

} // verus!

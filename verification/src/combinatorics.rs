//! Binomial coefficients and the order of words of a fixed weight.

use vstd::arithmetic::div_mod::*;
use vstd::arithmetic::mul::*;
use vstd::arithmetic::power2::*;
use vstd::prelude::*;

use crate::bits;

verus! {

/// Number of ways to choose `k` of `n` things.
pub open spec fn combinations(n: nat, k: nat) -> nat
    decreases n,
{
    if k == 0 {
        1
    } else if n == 0 {
        0
    } else {
        combinations((n - 1) as nat, (k - 1) as nat) + combinations((n - 1) as nat, k)
    }
}

pub proof fn lemma_combinations_edges(n: nat, k: nat)
    ensures
        k > n ==> combinations(n, k) == 0,
        k <= n ==> combinations(n, k) > 0,
        combinations(n, n) == 1,
    decreases n,
{
    if n > 0 {
        lemma_combinations_edges((n - 1) as nat, k);
        if k > 0 {
            lemma_combinations_edges((n - 1) as nat, (k - 1) as nat);
        }
        lemma_combinations_edges((n - 1) as nat, n);
    }
}

/// `C(n, k + 1) * (k + 1) = C(n, k) * (n - k)`.
pub proof fn lemma_combinations_ratio(n: nat, k: nat)
    requires
        k <= n,
    ensures
        combinations(n, k + 1) * (k + 1) == combinations(n, k) * (n - k),
    decreases n,
{
    lemma_combinations_edges(n, k);
    lemma_combinations_edges(n, k + 1);
    if k < n {
        let m = (n - 1) as nat;
        lemma_combinations_ratio(m, k);
        let a = combinations(m, k + 1) as int;
        let b = combinations(m, k) as int;
        let c = if k > 0 {
            lemma_combinations_ratio(m, (k - 1) as nat);
            combinations(m, (k - 1) as nat) as int
        } else {
            0int
        };
        assert(combinations(n, k) == c + b);
        assert(combinations(n, k + 1) == b + a);
        assert((b + a) * (k + 1) == (c + b) * (n - k)) by (nonlinear_arith)
            requires
                b * k == c * (n - k),
                a * (k + 1) == b * (n - 1 - k),
        ;
    } else {
        assert(combinations(n, k + 1) * (k + 1) == 0 && combinations(n, k) * (n - k) == 0)
            by (nonlinear_arith)
            requires
                k == n,
                combinations(n, k + 1) == 0,
        ;
    }
}

/// `C(n, k) = C(n, n - k)`.
pub proof fn lemma_combinations_symmetric(n: nat, k: nat)
    requires
        k <= n,
    ensures
        combinations(n, k) == combinations(n, (n - k) as nat),
    decreases n,
{
    lemma_combinations_edges(n, n);
    if n > 0 && 0 < k < n {
        lemma_combinations_symmetric((n - 1) as nat, k);
        lemma_combinations_symmetric((n - 1) as nat, (k - 1) as nat);
    }
}

/// More things leave more choices.
pub proof fn lemma_combinations_monotone(n: nat, m: nat, k: nat)
    requires
        n <= m,
    ensures
        combinations(n, k) <= combinations(m, k),
    decreases m,
{
    if n < m {
        lemma_combinations_monotone(n, (m - 1) as nat, k);
    }
}

/// Larger of two selections, both on the near side of the middle.
pub proof fn lemma_combinations_rising(n: nat, j: nat, k: nat)
    requires
        j <= k,
        2 * k <= n,
    ensures
        combinations(n, j) <= combinations(n, k),
    decreases k,
{
    if j < k {
        let i = (k - 1) as nat;
        lemma_combinations_rising(n, j, i);
        lemma_combinations_ratio(n, i);
        lemma_combinations_edges(n, i);
        assert(combinations(n, i) <= combinations(n, k)) by (nonlinear_arith)
            requires
                combinations(n, k) * k == combinations(n, i) * (n - i),
                0 < k,
                i == k - 1,
                2 * k <= n,
        ;
    }
}

/// Number of factors multiplied when `C(n, k)` is formed from the nearer end.
pub open spec fn shorter_side(n: nat, k: nat) -> nat {
    if n < k {
        0
    } else if k <= n - k {
        k
    } else {
        (n - k) as nat
    }
}

/// A number, or the largest word where it does not fit one.
pub open spec fn capped(number: nat) -> nat {
    if number > usize::MAX {
        usize::MAX as nat
    } else {
        number
    }
}

/// `C(n, k)` by the product formula, where it fits a word.
///
/// A selection of more than `n` counts as empty.
pub fn checked_binomial(n: usize, k: usize) -> (value: Option<usize>)
    ensures
        k <= n ==> match value {
            Some(value) => value == combinations(n as nat, k as nat),
            None => combinations(n as nat, k as nat) > usize::MAX,
        },
        k > n ==> value == Some(1usize),
{
    let complement: usize = n.saturating_sub(k);
    let steps: usize = if k < complement {
        k
    } else {
        complement
    };
    let mut value: u128 = 1;
    let mut index: usize = 0;
    proof {
        if k <= n {
            lemma_combinations_symmetric(n as nat, k as nat);
            assert(combinations(n as nat, k as nat) == combinations(n as nat, steps as nat));
        }
    }
    while index < steps
        invariant
            index <= steps,
            2 * steps <= n,
            steps == shorter_side(n as nat, k as nat),
            k <= n ==> combinations(n as nat, k as nat) == combinations(n as nat, steps as nat),
            value == combinations(n as nat, index as nat),
            value <= usize::MAX,
        decreases steps - index,
    {
        let factor: u128 = (n - index) as u128;
        let divisor: u128 = (index + 1) as u128;
        proof {
            assert(value * factor <= u128::MAX) by (nonlinear_arith)
                requires
                    0 <= value <= 0xffff_ffff_ffff_ffff,
                    0 <= factor <= 0xffff_ffff_ffff_ffff,
            ;
            lemma_combinations_ratio(n as nat, index as nat);
            lemma_div_by_multiple(
                combinations(n as nat, (index + 1) as nat) as int,
                divisor as int,
            );
        }
        value = value * factor / divisor;
        index += 1;
        if value > usize::MAX as u128 {
            proof {
                lemma_combinations_rising(n as nat, index as nat, steps as nat);
            }
            return None;
        }
    }
    Some(value as usize)
}

/// `C(n, k)`; the largest word where it does not fit one.
///
/// A selection of more than `n` counts as empty.
pub fn binomial(n: usize, k: usize) -> (value: usize)
    ensures
        k <= n ==> value == capped(combinations(n as nat, k as nat)),
        k > n ==> value == 1,
{
    match checked_binomial(n, k) {
        Some(value) => value,
        None => usize::MAX,
    }
}

/// Rank contributions of the ones of `x`: the one at `position` that is the
/// `ordinal`-th from the bottom counts `C(position, ordinal)`.
pub open spec fn colex(x: nat, position: nat, ordinal: nat) -> nat
    decreases x,
{
    if x == 0 {
        0
    } else if x % 2 == 1 {
        combinations(position, ordinal) + colex(x / 2, position + 1, ordinal + 1)
    } else {
        colex(x / 2, position + 1, ordinal)
    }
}

/// Place of `x` among the words of its weight in ascending order.
pub open spec fn weight_rank(x: nat) -> nat {
    colex(x, 0, 1)
}

pub proof fn lemma_colex_split(high: nat, low: nat, e: nat, position: nat, ordinal: nat)
    requires
        low < pow2(e),
    ensures
        colex(high * pow2(e) + low, position, ordinal) == colex(low, position, ordinal) + colex(
            high,
            position + e,
            ordinal + bits::ones(low),
        ),
    decreases e,
{
    lemma2_to64();
    if e == 0 {
        assert(high * pow2(e) == high) by {
            lemma_mul_basics(high as int);
        }
    } else {
        let d = (e - 1) as nat;
        lemma_pow2_unfold(e);
        let whole = high * pow2(e) + low;
        assert(whole == 2 * (high * pow2(d)) + low) by (nonlinear_arith)
            requires
                whole == high * pow2(e) + low,
                pow2(e) == 2 * pow2(d),
        ;
        assert(whole / 2 == high * pow2(d) + low / 2);
        assert(whole % 2 == low % 2);
        let next = if low % 2 == 1 {
            ordinal + 1
        } else {
            ordinal
        };
        lemma_colex_split(high, low / 2, d, position + 1, next);
        if whole == 0 {
            assert(high == 0) by (nonlinear_arith)
                requires
                    high * pow2(d) == 0,
                    pow2(d) > 0,
            {
                lemma_pow2_pos(d);
            }
        }
        if low == 0 && whole != 0 {
            assert(colex(0, position + 1, next) == 0);
        }
    }
}

/// A run of `m` ones starting at `position` counts one less than the single
/// one that replaces it.
pub proof fn lemma_colex_run(m: nat, position: nat)
    ensures
        colex((pow2(m) - 1) as nat, position, 1) == combinations(position + m, m) - 1,
    decreases m,
{
    lemma2_to64();
    lemma_pow2_pos(m);
    if m > 0 {
        let d = (m - 1) as nat;
        lemma_pow2_unfold(m);
        lemma_pow2_pos(d);
        lemma_colex_run(d, position);
        let low = (pow2(d) - 1) as nat;
        lemma_colex_split(1, low, d, position, 1);
        bits::lemma_ones_bound(low, d);
        assert(1 * pow2(d) + low == pow2(m) - 1);
        assert(colex(1, position + d, 1 + d) == combinations(position + d, m)) by {
            assert(colex(0, position + d + 1, 1 + d + 1) == 0);
        }
        assert(combinations(position + m, m) == combinations(position + d, d) + combinations(
            position + d,
            m,
        ));
    }
}

/// The word of weight `m` with its ones at the bottom is the first.
pub proof fn lemma_colex_bottom(m: nat)
    ensures
        weight_rank((pow2(m) - 1) as nat) == 0,
{
    lemma_colex_run(m, 0);
    lemma_combinations_edges(m, m);
}

/// Ranks stay below the number of words of that weight.
pub proof fn lemma_rank_bound(x: nat, n: nat)
    requires
        x < pow2(n),
    ensures
        weight_rank(x) < combinations(n, bits::ones(x)),
    decreases n,
{
    lemma2_to64();
    if n == 0 {
        assert(x == 0);
    } else {
        let d = (n - 1) as nat;
        let p = pow2(d);
        lemma_pow2_unfold(n);
        lemma_combinations_edges(d, bits::ones(x));
        if x < p {
            lemma_rank_bound(x, d);
        } else {
            let low = (x - p) as nat;
            lemma_rank_bound(low, d);
            lemma_colex_split(1, low, d, 0, 1);
            bits::lemma_ones_split(1, low, d);
            assert(1 * p + low == x);
            assert(bits::ones(1) == 1) by {
                assert(bits::ones(0) == 0);
            }
            let o = 1 + bits::ones(low);
            assert(colex(1, d, o) == combinations(d, o)) by {
                assert(colex(0, d + 1, o + 1) == 0);
            }
        }
    }
}

/// Ranks of words of equal weight keep their order.
pub proof fn lemma_rank_monotone(x: nat, y: nat, n: nat)
    requires
        x < y < pow2(n),
        bits::ones(x) == bits::ones(y),
    ensures
        weight_rank(x) < weight_rank(y),
    decreases n,
{
    lemma2_to64();
    if n > 0 {
        let d = (n - 1) as nat;
        let p = pow2(d);
        lemma_pow2_unfold(n);
        if y < p {
            lemma_rank_monotone(x, y, d);
        } else {
            let low = (y - p) as nat;
            lemma_colex_split(1, low, d, 0, 1);
            bits::lemma_ones_split(1, low, d);
            assert(1 * p + low == y);
            assert(bits::ones(1) == 1) by {
                assert(bits::ones(0) == 0);
            }
            let o = 1 + bits::ones(low);
            assert(colex(1, d, o) == combinations(d, o)) by {
                assert(colex(0, d + 1, o + 1) == 0);
            }
            if x < p {
                lemma_rank_bound(x, d);
            } else {
                let other = (x - p) as nat;
                lemma_colex_split(1, other, d, 0, 1);
                bits::lemma_ones_split(1, other, d);
                assert(1 * p + other == x);
                lemma_rank_monotone(other, low, d);
            }
        }
    }
}

/// The word of weight `k` with its ones at the top of `n` digits is the last.
pub proof fn lemma_rank_top(n: nat, k: nat)
    requires
        k <= n,
    ensures
        (pow2(k) - 1) * pow2((n - k) as nat) < pow2(n),
        bits::ones(((pow2(k) - 1) * pow2((n - k) as nat)) as nat) == k,
        weight_rank(((pow2(k) - 1) * pow2((n - k) as nat)) as nat) == combinations(n, k) - 1,
{
    let e = (n - k) as nat;
    lemma_pow2_pos(k);
    lemma_pow2_pos(e);
    lemma_pow2_adds(k, e);
    let run = (pow2(k) - 1) as nat;
    assert(run * pow2(e) == pow2(n) - pow2(e)) by (nonlinear_arith)
        requires
            run == pow2(k) - 1,
            pow2(n) == pow2(k) * pow2(e),
    ;
    bits::lemma_ones_split(run, 0, e);
    bits::lemma_ones_bound(run, k);
    lemma_colex_split(run, 0, e, 0, 1);
    lemma_colex_run(k, e);
}

} // verus!

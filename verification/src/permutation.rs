//! Permutations of numbered elements and their periods.

use vstd::arithmetic::div_mod::*;
use vstd::arithmetic::mul::*;
use vstd::prelude::*;

use crate::error::{QmbedError, Reason, Result};

verus! {

/// Whether the list sends its places one to one onto themselves.
pub open spec fn is_permutation(list: Seq<usize>) -> bool {
    &&& forall|i: int| 0 <= i < list.len() ==> #[trigger] list[i] < list.len()
    &&& list.no_duplicates()
}

/// Whether a list is a permutation of its places.
pub fn check_permutation(list: &Vec<usize>) -> (answer: bool)
    ensures
        answer == is_permutation(list@),
{
    let mut seen: Vec<bool> = vec![false; list.len()];
    let mut next: usize = 0;
    while next < list.len()
        invariant
            next <= list@.len(),
            seen@.len() == list@.len(),
            forall|i: int| 0 <= i < next ==> #[trigger] list@[i] < list@.len(),
            forall|v: int|
                0 <= v < seen@.len() ==> (#[trigger] seen@[v] <==> exists|i: int|
                    0 <= i < next && list@[i] == v),
            forall|i: int, j: int| 0 <= i < j < next ==> list@[i] != list@[j],
        decreases list@.len() - next,
    {
        let value: usize = list[next];
        if value >= list.len() {
            return false;
        }
        if seen[value] {
            proof {
                let i = choose|i: int| 0 <= i < next && list@[i] == value;
                assert(list@[i] == list@[next as int]);
            }
            return false;
        }
        let ghost before = seen@;
        seen[value] = true;
        proof {
            assert forall|v: int| 0 <= v < seen@.len() implies (#[trigger] seen@[v] <==> exists|
                i: int,
            |
                0 <= i < next + 1 && list@[i] == v) by {
                if v == value {
                    assert(list@[next as int] == v);
                } else {
                    assert(seen@[v] == before[v]);
                    if before[v] {
                        let i = choose|i: int| 0 <= i < next && list@[i] == v;
                        assert(list@[i] == v);
                    }
                }
            }
            assert forall|i: int, j: int| 0 <= i < j < next + 1 implies list@[i] != list@[j] by {
                if j == next && list@[i] == list@[j] {
                    assert(before[value as int]);
                }
            }
        }
        next += 1;
    }
    true
}

/// The element reached from `start` after `steps` steps.
pub open spec fn iterate(list: Seq<usize>, start: int, steps: nat) -> int
    decreases steps,
{
    if steps == 0 {
        start
    } else {
        list[iterate(list, start, (steps - 1) as nat)] as int
    }
}

pub proof fn lemma_iterate_bound(list: Seq<usize>, start: int, steps: nat)
    requires
        is_permutation(list),
        0 <= start < list.len(),
    ensures
        0 <= iterate(list, start, steps) < list.len(),
    decreases steps,
{
    if steps > 0 {
        lemma_iterate_bound(list, start, (steps - 1) as nat);
    }
}

pub proof fn lemma_iterate_adds(list: Seq<usize>, start: int, first: nat, second: nat)
    ensures
        iterate(list, start, first + second) == iterate(
            list,
            iterate(list, start, first),
            second,
        ),
    decreases second,
{
    if second > 0 {
        lemma_iterate_adds(list, start, first, (second - 1) as nat);
    }
}

pub proof fn lemma_iterate_multiple(list: Seq<usize>, start: int, cycle: nat, turns: nat)
    requires
        iterate(list, start, cycle) == start,
    ensures
        iterate(list, start, turns * cycle) == start,
    decreases turns,
{
    if turns == 0 {
        lemma_mul_by_zero_is_zero(cycle as int);
    } else {
        let d = (turns - 1) as nat;
        lemma_iterate_multiple(list, start, cycle, d);
        assert(turns * cycle == d * cycle + cycle) by (nonlinear_arith)
            requires
                turns == d + 1,
        ;
        lemma_iterate_adds(list, start, d * cycle, cycle);
    }
}

/// Whether `steps` steps lead every element back to itself.
pub open spec fn closes(list: Seq<usize>, steps: nat) -> bool {
    forall|x: int| 0 <= x < list.len() ==> #[trigger] iterate(list, x, steps) == x
}

/// Whether `period` is the least positive number of steps after which every
/// element is back: exactly its multiples close.
pub open spec fn is_period(list: Seq<usize>, period: nat) -> bool {
    &&& period > 0
    &&& forall|steps: nat| #[trigger] closes(list, steps) <==> steps % period == 0
}

/// Greatest common divisor.
pub open spec fn gcd(left: nat, right: nat) -> nat
    decreases right,
{
    if right == 0 {
        left
    } else {
        gcd(right, left % right)
    }
}

/// The greatest common divisor divides both numbers and is a combination of them.
pub proof fn lemma_bezout(left: nat, right: nat) -> (coefficients: (int, int))
    requires
        left > 0 || right > 0,
    ensures
        gcd(left, right) > 0,
        left % gcd(left, right) == 0,
        right % gcd(left, right) == 0,
        gcd(left, right) == coefficients.0 * left + coefficients.1 * right,
    decreases right,
{
    if right == 0 {
        lemma_mod_self_0(left as int);
        lemma_small_mod(0, left);
        lemma_mul_basics(left as int);
        (1, 0)
    } else {
        let rest = left % right;
        let (x, y) = lemma_bezout(right, rest);
        let g = gcd(right, rest) as int;
        lemma_fundamental_div_mod(left as int, right as int);
        lemma_fundamental_div_mod(right as int, g);
        lemma_fundamental_div_mod(rest as int, g);
        let q = left as int / right as int;
        let a = right as int / g;
        let b = rest as int / g;
        assert(left as int == (a * q + b) * g) by (nonlinear_arith)
            requires
                left as int == right * q + rest,
                right as int == g * a,
                rest as int == g * b,
        ;
        lemma_mod_multiples_basic(a * q + b, g);
        assert(g == y * left + (x - y * q) * right) by (nonlinear_arith)
            requires
                g == x * right + y * rest,
                left as int == right * q + rest,
        ;
        (y, x - y * q)
    }
}

/// Least common multiple.
pub open spec fn lcm(left: nat, right: nat) -> nat {
    left / gcd(left, right) * right
}

/// The common multiples of two numbers are the multiples of their least one.
pub proof fn lemma_lcm(left: nat, right: nat, number: nat)
    requires
        left > 0,
        right > 0,
    ensures
        lcm(left, right) > 0,
        number % lcm(left, right) == 0 <==> number % left == 0 && number % right == 0,
{
    let (x, y) = lemma_bezout(left, right);
    let g = gcd(left, right) as int;
    let a = left as int / g;
    let b = right as int / g;
    let l = lcm(left, right) as int;
    lemma_fundamental_div_mod(left as int, g);
    lemma_fundamental_div_mod(right as int, g);
    assert(a > 0 && b > 0) by (nonlinear_arith)
        requires
            left as int == g * a,
            right as int == g * b,
            left > 0,
            right > 0,
            g > 0,
    ;
    assert(l == a * right && l == b * left && l > 0) by (nonlinear_arith)
        requires
            l == a * right,
            left as int == g * a,
            right as int == g * b,
            a > 0,
            right > 0,
    ;
    if number as int % l == 0 {
        lemma_fundamental_div_mod(number as int, l);
        let w = number as int / l;
        assert(number as int == (w * b) * left && number as int == (w * a) * right)
            by (nonlinear_arith)
            requires
                number as int == l * w,
                l == a * right,
                l == b * left,
        ;
        lemma_mod_multiples_basic(w * b, left as int);
        lemma_mod_multiples_basic(w * a, right as int);
    }
    if number % left == 0 && number % right == 0 {
        lemma_fundamental_div_mod(number as int, left as int);
        lemma_fundamental_div_mod(number as int, right as int);
        let u = number as int / left as int;
        let v = number as int / right as int;
        let w = x * v + y * u;
        let n = number as int;
        let p = left as int;
        let q = right as int;
        assert(g * n == (x * p) * n + (y * q) * n) by (nonlinear_arith)
            requires
                g == x * p + y * q,
        ;
        assert((x * p) * n == (p * q) * (x * v)) by (nonlinear_arith)
            requires
                n == q * v,
        ;
        assert((y * q) * n == (p * q) * (y * u)) by (nonlinear_arith)
            requires
                n == p * u,
        ;
        assert(p * q == g * l) by (nonlinear_arith)
            requires
                l == a * q,
                p == g * a,
        ;
        assert((g * l) * (x * v) + (g * l) * (y * u) == g * (l * w)) by (nonlinear_arith)
            requires
                w == x * v + y * u,
        ;
        assert(g * n == g * (l * w));
        assert(number as int == w * l) by (nonlinear_arith)
            requires
                g * number == g * (l * w),
                g > 0,
        ;
        lemma_mod_multiples_basic(w, l);
    }
}

/// Least common multiple, unless it does not fit.
pub fn checked_lcm(left: usize, right: usize) -> (result: Result<usize>)
    requires
        left > 0,
        right > 0,
    ensures
        match result {
            Ok(value) => value == lcm(left as nat, right as nat),
            Err(error) => {
                &&& lcm(left as nat, right as nat) > usize::MAX
                &&& error == QmbedError::UnsupportedBackend(Reason::Text("symmetry period is too large"))
            },
        },
{
    let mut a: usize = left;
    let mut b: usize = right;
    while b != 0
        invariant
            gcd(a as nat, b as nat) == gcd(left as nat, right as nat),
            a > 0 || b > 0,
        decreases b,
    {
        let rest: usize = a % b;
        a = b;
        b = rest;
    }
    match (left / a).checked_mul(right) {
        Some(value) => Ok(value),
        None => Err(QmbedError::UnsupportedBackend(Reason::Text("symmetry period is too large"))),
    }
}

/// Number of unset marks.
spec fn unset(marks: Seq<bool>) -> nat
    decreases marks.len(),
{
    if marks.len() == 0 {
        0
    } else {
        unset(marks.drop_last()) + if marks.last() {
            0nat
        } else {
            1nat
        }
    }
}

proof fn lemma_unset_update(marks: Seq<bool>, place: int)
    requires
        0 <= place < marks.len(),
        !marks[place],
    ensures
        unset(marks.update(place, true)) + 1 == unset(marks),
    decreases marks.len(),
{
    let changed = marks.update(place, true);
    if place == marks.len() - 1 {
        assert(changed.drop_last() =~= marks.drop_last());
    } else {
        assert(changed.drop_last() =~= marks.drop_last().update(place, true));
        lemma_unset_update(marks.drop_last(), place);
    }
}

proof fn lemma_unset_bound(marks: Seq<bool>)
    ensures
        unset(marks) <= marks.len(),
    decreases marks.len(),
{
    if marks.len() > 0 {
        lemma_unset_bound(marks.drop_last());
    }
}

/// Whether the marked elements are a union of whole cycles.
spec fn whole_cycles(list: Seq<usize>, marks: Seq<bool>) -> bool {
    &&& marks.len() == list.len()
    &&& forall|x: int| 0 <= x < list.len() ==> (#[trigger] marks[x] <==> marks[list[x] as int])
}

/// Whether `steps` steps lead every marked element back to itself.
spec fn marked_close(list: Seq<usize>, marks: Seq<bool>, steps: nat) -> bool {
    forall|x: int|
        0 <= x < list.len() && marks[x] ==> #[trigger] iterate(list, x, steps) == x
}

/// Marks and length of the cycle through an unmarked element.
fn walk_cycle(list: &Vec<usize>, seed: usize, marks: &mut Vec<bool>) -> (cycle: usize)
    requires
        is_permutation(list@),
        seed < list@.len(),
        whole_cycles(list@, old(marks)@),
        !old(marks)@[seed as int],
    ensures
        whole_cycles(list@, final(marks)@),
        cycle > 0,
        final(marks)@[seed as int],
        forall|x: int|
            0 <= x < list@.len() && #[trigger] old(marks)@[x] ==> final(marks)@[x],
        forall|steps: nat| #[trigger]
            marked_close(list@, final(marks)@, steps) <==> marked_close(
                list@,
                old(marks)@,
                steps,
            ) && steps % (cycle as nat) == 0,
{
    let ghost p = list@;
    let ghost start = marks@;
    let mut current: usize = seed;
    let mut cycle: usize = 0;
    let ghost mut path: Seq<int> = Seq::empty();
    proof {
        lemma_unset_bound(start);
        assert(list.len() == list@.len());
    }
    while !marks[current]
        invariant
            is_permutation(p),
            p == list@,
            seed < p.len(),
            current < p.len(),
            marks@.len() == p.len(),
            whole_cycles(p, start),
            !start[seed as int],
            current == iterate(p, seed as int, cycle as nat),
            path.len() == cycle,
            cycle + unset(marks@) == unset(start),
            unset(start) <= usize::MAX,
            forall|j: int| 0 <= j < cycle ==> #[trigger] path[j] == iterate(p, seed as int, j as nat),
            forall|j: int| 0 <= j < cycle ==> 0 <= #[trigger] path[j] < p.len() && !start[path[j]],
            path.no_duplicates(),
            forall|x: int|
                0 <= x < p.len() ==> (#[trigger] marks@[x] <==> start[x] || path.contains(x)),
        decreases unset(marks@),
    {
        proof {
            lemma_unset_update(marks@, current as int);
            lemma_unmarked_backward(p, start, seed as int, cycle as nat);
            assert forall|j: int| 0 <= j < path.len() implies path[j] != current by {
                assert(path.contains(path[j]));
            }
        }
        let ghost before = marks@;
        let ghost old_path = path;
        marks[current] = true;
        proof {
            path = path.push(current as int);
            assert forall|x: int| 0 <= x < p.len() implies (#[trigger] marks@[x] <==> start[x]
                || path.contains(x)) by {
                vstd::seq_lib::lemma_seq_contains_after_push(old_path, current as int, x);
                if x != current {
                    assert(marks@[x] == before[x]);
                }
            }
        }
        cycle += 1;
        current = list[current];
    }
    proof {
        lemma_cycle_closes(p, start, path, seed as int, cycle as nat);
        assert(current == seed);
        assert(path[0] == seed);
        assert(path.contains(seed as int));
        assert forall|x: int| 0 <= x < p.len() implies (#[trigger] marks@[x]
            <==> marks@[p[x] as int]) by {
            lemma_cycle_step(p, start, path, seed as int, cycle as nat, x);
        }
        assert forall|steps: nat| #[trigger] marked_close(p, marks@, steps) <==> marked_close(
            p,
            start,
            steps,
        ) && steps % (cycle as nat) == 0 by {
            lemma_cycle_steps(p, start, marks@, path, seed as int, cycle as nat, steps);
        }
    }
    cycle
}

/// Walking from an unmarked element never reaches a marked whole cycle.
proof fn lemma_unmarked_backward(list: Seq<usize>, marks: Seq<bool>, seed: int, steps: nat)
    requires
        is_permutation(list),
        whole_cycles(list, marks),
        0 <= seed < list.len(),
        !marks[seed],
    ensures
        0 <= iterate(list, seed, steps) < list.len(),
        !marks[iterate(list, seed, steps)],
    decreases steps,
{
    if steps > 0 {
        lemma_unmarked_backward(list, marks, seed, (steps - 1) as nat);
    }
}

/// Facts of a finished walk.
spec fn walked(
    list: Seq<usize>,
    start: Seq<bool>,
    path: Seq<int>,
    seed: int,
    cycle: nat,
) -> bool {
    &&& is_permutation(list)
    &&& whole_cycles(list, start)
    &&& 0 <= seed < list.len()
    &&& !start[seed]
    &&& path.len() == cycle
    &&& path.no_duplicates()
    &&& forall|j: int| 0 <= j < cycle ==> #[trigger] path[j] == iterate(list, seed, j as nat)
}

/// The walk ends where it began.
proof fn lemma_cycle_closes(
    list: Seq<usize>,
    start: Seq<bool>,
    path: Seq<int>,
    seed: int,
    cycle: nat,
)
    requires
        walked(list, start, path, seed, cycle),
        start[iterate(list, seed, cycle)] || path.contains(iterate(list, seed, cycle)),
    ensures
        cycle > 0,
        iterate(list, seed, cycle) == seed,
{
    lemma_unmarked_backward(list, start, seed, cycle);
    let reached = iterate(list, seed, cycle);
    let j = choose|j: int| 0 <= j < path.len() && path[j] == reached;
    if j > 0 {
        let a = iterate(list, seed, (j - 1) as nat);
        let b = iterate(list, seed, (cycle - 1) as nat);
        lemma_iterate_bound(list, seed, (j - 1) as nat);
        lemma_iterate_bound(list, seed, (cycle - 1) as nat);
        assert(path[j] == iterate(list, seed, j as nat));
        assert(list[a] == list[b]);
        assert(a == b);
        assert(path[j - 1] == a);
        assert(path[cycle - 1] == b);
        assert(false);
    }
}

/// The marked elements after a walk are whole cycles.
proof fn lemma_cycle_step(
    list: Seq<usize>,
    start: Seq<bool>,
    path: Seq<int>,
    seed: int,
    cycle: nat,
    x: int,
)
    requires
        walked(list, start, path, seed, cycle),
        cycle > 0,
        iterate(list, seed, cycle) == seed,
        0 <= x < list.len(),
    ensures
        (start[x] || path.contains(x)) <==> (start[list[x] as int] || path.contains(
            list[x] as int,
        )),
{
    let y = list[x] as int;
    if path.contains(x) {
        let j = choose|j: int| 0 <= j < path.len() && path[j] == x;
        assert(iterate(list, seed, (j + 1) as nat) == y);
        if j + 1 < cycle {
            assert(path[j + 1] == y);
        } else {
            assert(path[0] == seed);
        }
    }
    if path.contains(y) {
        let j = choose|j: int| 0 <= j < path.len() && path[j] == y;
        let i = if j == 0 {
            cycle - 1
        } else {
            j - 1
        };
        lemma_iterate_bound(list, seed, i as nat);
        assert(list[iterate(list, seed, i as nat)] == list[x]) by {
            if j == 0 {
                assert(path[0] == seed);
            }
        }
        assert(iterate(list, seed, i as nat) == x);
        assert(path[i] == x);
    }
}

/// Which numbers of steps lead the elements of one more cycle back.
proof fn lemma_cycle_steps(
    list: Seq<usize>,
    start: Seq<bool>,
    marks: Seq<bool>,
    path: Seq<int>,
    seed: int,
    cycle: nat,
    steps: nat,
)
    requires
        walked(list, start, path, seed, cycle),
        cycle > 0,
        iterate(list, seed, cycle) == seed,
        marks.len() == list.len(),
        forall|x: int|
            0 <= x < list.len() ==> (#[trigger] marks[x] <==> start[x] || path.contains(x)),
    ensures
        marked_close(list, marks, steps) <==> marked_close(list, start, steps) && steps % cycle
            == 0,
{
    let turns = steps / cycle;
    let rest = steps % cycle;
    lemma_fundamental_div_mod(steps as int, cycle as int);
    lemma_mul_is_commutative(cycle as int, turns as int);
    lemma_mod_bound(steps as int, cycle as int);
    lemma_iterate_multiple(list, seed, cycle, turns);
    lemma_iterate_adds(list, seed, turns * cycle, rest);
    assert(iterate(list, seed, steps) == iterate(list, seed, rest));
    if marked_close(list, marks, steps) {
        assert(path[0] == seed);
        assert(marks[seed]);
        assert(iterate(list, seed, steps) == seed);
        if rest != 0 {
            assert(path[rest as int] == path[0]);
        }
        assert forall|x: int| 0 <= x < list.len() && start[x] implies #[trigger] iterate(
            list,
            x,
            steps,
        ) == x by {
            assert(marks[x]);
        }
    }
    if marked_close(list, start, steps) && rest == 0 {
        assert forall|x: int| 0 <= x < list.len() && marks[x] implies #[trigger] iterate(
            list,
            x,
            steps,
        ) == x by {
            if !start[x] {
                let j = choose|j: int| 0 <= j < path.len() && path[j] == x;
                lemma_iterate_adds(list, seed, j as nat, steps);
                lemma_iterate_adds(list, seed, steps, j as nat);
            }
        }
    }
}

/// The period of a permutation: the least common multiple of its cycle lengths.
pub fn permutation_period(list: &Vec<usize>) -> (result: Result<usize>)
    requires
        is_permutation(list@),
    ensures
        match result {
            Ok(period) => is_period(list@, period as nat),
            Err(error) => {
                &&& error == QmbedError::UnsupportedBackend(Reason::Text("symmetry period is too large"))
                &&& forall|steps: nat|
                    0 < steps <= usize::MAX ==> !(#[trigger] closes(list@, steps))
            },
        },
{
    let mut marks: Vec<bool> = vec![false; list.len()];
    let mut period: usize = 1;
    let mut seed: usize = 0;
    proof {
        assert forall|steps: nat| #[trigger] marked_close(list@, marks@, steps) <==> steps % 1
            == 0 by {
        }
    }
    while seed < list.len()
        invariant
            seed <= list@.len(),
            is_permutation(list@),
            period > 0,
            whole_cycles(list@, marks@),
            forall|x: int| 0 <= x < seed ==> #[trigger] marks@[x],
            forall|steps: nat| #[trigger]
                marked_close(list@, marks@, steps) <==> steps % (period as nat) == 0,
        decreases list@.len() - seed,
    {
        if !marks[seed] {
            let ghost before = marks@;
            let cycle: usize = walk_cycle(list, seed, &mut marks);
            let ghost old_period = period as nat;
            proof {
                assert forall|x: int| 0 <= x <= seed implies #[trigger] marks@[x] by {
                    if x < seed {
                        assert(before[x]);
                    }
                }
                assert forall|steps: nat| #[trigger] marked_close(list@, marks@, steps)
                    <==> steps % lcm(old_period, cycle as nat) == 0 by {
                    lemma_lcm(old_period, cycle as nat, steps);
                    assert(marked_close(list@, before, steps) <==> steps % old_period == 0);
                }
                lemma_lcm(old_period, cycle as nat, 1);
            }
            match checked_lcm(period, cycle) {
                Ok(multiple) => {
                    period = multiple;
                },
                Err(error) => {
                    proof {
                        let m = lcm(old_period, cycle as nat);
                        assert forall|steps: nat| 0 < steps <= usize::MAX implies !(
                        #[trigger] closes(list@, steps)) by {
                            if closes(list@, steps) {
                                assert(marked_close(list@, marks@, steps)) by {
                                    assert forall|x: int|
                                        0 <= x < list@.len() && marks@[x] implies #[trigger] iterate(
                                        list@,
                                        x,
                                        steps,
                                    ) == x by {
                                    }
                                }
                                lemma_small_mod(steps, m);
                            }
                        }
                    }
                    return Err(error);
                },
            }
        }
        seed += 1;
    }
    proof {
        assert forall|steps: nat| #[trigger] closes(list@, steps) <==> steps % (period as nat)
            == 0 by {
            assert(marked_close(list@, marks@, steps) <==> steps % (period as nat) == 0);
            assert(closes(list@, steps) <==> marked_close(list@, marks@, steps));
        }
    }
    Ok(period)
}

} // verus!

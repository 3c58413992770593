//! What derivatives with respect to parameters are: first-order changes.

use vstd::prelude::*;

use crate::ad;
use crate::exact;
use crate::exact::ExactScalar;
use crate::family;
use crate::family::ComponentModel;
use crate::isometry;
use crate::linear;
use crate::linear::Scalar;
use crate::sums::total_of;

verus! {

proof fn lemma_regrouped<S: ExactScalar>(a: S, t: S, c: S, value: S, change: S, u: S, v: S)
    ensures
        a.spec_plus(t).spec_plus(c).spec_plus(
            value.spec_plus(change).spec_times(u.spec_plus(v)),
        ) == a.spec_plus(value.spec_times(u)).spec_plus(
            t.spec_plus(change.spec_times(u)).spec_plus(value.spec_times(v)),
        ).spec_plus(c.spec_plus(change.spec_times(v))),
{
    let (p, q) = (value.spec_times(u), value.spec_times(v));
    let (r, s) = (change.spec_times(u), change.spec_times(v));
    let sum = u.spec_plus(v);
    S::times_commutes(value.spec_plus(change), sum);
    S::times_distributes(sum, value, change);
    S::times_commutes(sum, value);
    S::times_commutes(sum, change);
    S::times_distributes(value, u, v);
    S::times_distributes(change, u, v);
    // (p + q) + (r + s) == (p + (r + q)) + s
    S::plus_associates(p.spec_plus(q), r, s);
    S::plus_associates(p, q, r);
    S::plus_commutes(q, r);
    let middle = r.spec_plus(q);
    exact::lemma_crosswise(a.spec_plus(t), c, p.spec_plus(middle), s);
    exact::lemma_crosswise(a, t, p, middle);
    S::plus_associates(t, r, q);
}

/// The tangent of `A(θ) x` is its first-order change: where parameters and input change together,
/// the image changes by the tangent, but for the change of the operator on the change of the
/// input.
pub proof fn law_tangent_is_the_first_order_change<S: ExactScalar>(
    components: Seq<ComponentModel<S>>,
    values: Seq<S>,
    direction: Seq<S>,
    input: Seq<S>,
    input_direction: Seq<S>,
    count: nat,
)
    requires
        family::same_shapes(components),
        count <= components.len(),
        components.len() > 0,
        values.len() == components.len(),
        direction.len() == components.len(),
        input.len() == components[0].operator.columns,
        input_direction.len() == input.len(),
    ensures
        ({
            let rows = components[0].operator.rows as nat;
            let moved = family::combined_apply(
                components,
                linear::vector_sum(values, direction),
                linear::vector_sum(input, input_direction),
                count,
            );
            let image = family::combined_apply(components, values, input, count);
            let tangent = ad::tangent_of(
                components,
                values,
                direction,
                input,
                input_direction,
                count,
            );
            let rest = family::combined_apply(components, direction, input_direction, count);
            &&& moved.len() == rows && image.len() == rows && tangent.len() == rows && rest.len()
                == rows
            &&& forall|i: int|
                0 <= i < rows ==> #[trigger] moved[i] == image[i].spec_plus(tangent[i]).spec_plus(
                    rest[i],
                )
        }),
    decreases count,
{
    let rows = components[0].operator.rows as nat;
    let sum = linear::vector_sum(input, input_direction);
    if count == 0 {
        S::zero_is_neutral(S::spec_zero());
    } else {
        let fewer = (count - 1) as nat;
        law_tangent_is_the_first_order_change(
            components,
            values,
            direction,
            input,
            input_direction,
            fewer,
        );
        let entries = components[count - 1].operator.entries;
        let (r, c) = (components[0].operator.rows, components[0].operator.columns);
        assert(components[count - 1].operator.rows == r && components[count - 1].operator.columns
            == c && linear::entries_fit(entries, r, c));
        isometry::lemma_apply_is_linear(entries, input, S::spec_one(), input_direction, r, c);
        assert forall|i: int| 0 <= i < input.len() implies #[trigger] sum[i] == linear::add_scaled(
            input,
            S::spec_one(),
            input_direction,
        )[i] by {
            S::one_is_neutral(input_direction[i]);
        }
        assert(sum =~= linear::add_scaled(input, S::spec_one(), input_direction));
        linear::lemma_entries_apply(entries, input, r, c);
        linear::lemma_entries_apply(entries, input_direction, r, c);
        let u = linear::entries_apply(entries, input, rows);
        let v = linear::entries_apply(entries, input_direction, rows);
        let a = family::combined_apply(components, values, input, fewer);
        let t = ad::tangent_of(components, values, direction, input, input_direction, fewer);
        let d = family::combined_apply(components, direction, input_direction, fewer);
        let moved = family::combined_apply(
            components,
            linear::vector_sum(values, direction),
            sum,
            count,
        );
        let image = family::combined_apply(components, values, input, count);
        let tangent = ad::tangent_of(
            components,
            values,
            direction,
            input,
            input_direction,
            count,
        );
        let rest = family::combined_apply(components, direction, input_direction, count);
        assert forall|i: int| 0 <= i < rows implies #[trigger] moved[i] == image[i].spec_plus(
            tangent[i],
        ).spec_plus(rest[i]) by {
            S::one_is_neutral(v[i]);
            let before = family::combined_apply(
                components,
                linear::vector_sum(values, direction),
                sum,
                fewer,
            );
            assert(before[i] == a[i].spec_plus(t[i]).spec_plus(d[i]));
            lemma_regrouped(
                a[i],
                t[i],
                d[i],
                values[count - 1],
                direction[count - 1],
                u[i],
                v[i],
            );
        }
    }
}

/// Energy of a state under the first components, with the given coefficients.
pub open spec fn energy_of<S: Scalar>(
    components: Seq<ComponentModel<S>>,
    values: Seq<S>,
    state: Seq<S>,
    count: nat,
) -> S {
    linear::inner_product(
        state,
        family::combined_apply(components, values, state, count),
    ).spec_real_part()
}

/// The gradient of the energy of a state says how that energy changes with the parameters: where
/// real parameters change, the energy changes by the sum of the changes, each times the
/// expectation that the gradient holds for it.
pub proof fn law_gradient_tells_the_change_of_energy<S: ExactScalar>(
    components: Seq<ComponentModel<S>>,
    values: Seq<S>,
    direction: Seq<S>,
    state: Seq<S>,
    count: nat,
)
    requires
        family::same_shapes(components),
        count <= components.len(),
        components.len() > 0,
        components[0].operator.rows == components[0].operator.columns,
        values.len() == components.len(),
        direction.len() == components.len(),
        forall|k: int| 0 <= k < direction.len() ==> (#[trigger] direction[k]).spec_is_real(),
        state.len() == components[0].operator.columns,
    ensures
        energy_of(components, linear::vector_sum(values, direction), state, count) == energy_of(
            components,
            values,
            state,
            count,
        ).spec_plus(
            total_of(
                |k: int| direction[k].spec_times(ad::expectation(components, state, k)),
                count,
            ).spec_real_part(),
        ),
    decreases count,
{
    let moved = linear::vector_sum(values, direction);
    let change = |k: int| direction[k].spec_times(ad::expectation(components, state, k));
    let n = state.len();
    if count == 0 {
        exact::lemma_inner_with_zero::<S>(state, n);
        let zero = S::spec_zero();
        S::zero_is_neutral(zero);
        S::real_part_is_linear(zero, zero);
    } else {
        let fewer = (count - 1) as nat;
        law_gradient_tells_the_change_of_energy(components, values, direction, state, fewer);
        let component = components[count - 1].operator;
        assert(component.rows == n && component.columns == n);
        let entries = component.entries;
        linear::lemma_entries_apply(entries, state, n as usize, n as usize);
        let image = linear::entries_apply(entries, state, n);
        family::lemma_combined_apply(components, moved, state, fewer);
        family::lemma_combined_apply(components, values, state, fewer);
        let x = family::combined_apply(components, moved, state, fewer);
        let y = family::combined_apply(components, values, state, fewer);
        let (v, d) = (values[count - 1], direction[count - 1]);
        exact::lemma_inner_scaled_right(state, x, v.spec_plus(d), image);
        exact::lemma_inner_scaled_right(state, y, v, image);
        let u = linear::inner_product(state, image);
        let (a, b) = (linear::inner_product(state, x), linear::inner_product(state, y));
        let t = total_of(change, fewer);
        S::times_commutes(v.spec_plus(d), u);
        S::times_distributes(u, v, d);
        S::times_commutes(u, v);
        S::times_commutes(u, d);
        let (p, q) = (v.spec_times(u), d.spec_times(u));
        S::real_part_is_linear(a, p.spec_plus(q));
        S::real_part_is_linear(p, q);
        S::real_part_is_linear(b, p);
        S::real_part_is_linear(d, u);
        S::real_part_is_linear(t, change(count - 1));
        exact::lemma_crosswise(
            b.spec_real_part(),
            t.spec_real_part(),
            p.spec_real_part(),
            q.spec_real_part(),
        );
    }
}

} // verus!

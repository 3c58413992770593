//! Matrices of local terms over exact scalars: terms add up.

use vstd::prelude::*;

use crate::assembly;
use crate::assembly::Weighing;
use crate::basis::Basis;
use crate::checks;
use crate::checks::AssemblyChecks;
use crate::exact;
use crate::exact::ExactScalar;
use crate::linear;
use crate::linear::MatrixFormat;
use crate::model::TermModel;

verus! {

/// Two lists of entries in a row act as the sum of what each does.
pub proof fn lemma_joined_apply<S: ExactScalar>(
    left: Seq<(usize, usize, S)>,
    right: Seq<(usize, usize, S)>,
    x: Seq<S>,
    rows: usize,
    columns: usize,
)
    requires
        linear::entries_fit(left, rows, columns),
        linear::entries_fit(right, rows, columns),
    ensures
        linear::entries_apply(left + right, x, rows as nat) == linear::vector_sum(
            linear::entries_apply(left, x, rows as nat),
            linear::entries_apply(right, x, rows as nat),
        ),
    decreases right.len(),
{
    let base = linear::entries_apply(left, x, rows as nat);
    linear::lemma_entries_apply(left, x, rows, columns);
    linear::lemma_entries_apply(right, x, rows, columns);
    if right.len() == 0 {
        assert(left + right =~= left);
        assert forall|i: int| 0 <= i < rows implies base[i].spec_plus(S::spec_zero())
            == #[trigger] base[i] by {
            S::zero_is_neutral(base[i]);
        }
        assert(linear::vector_sum(base, linear::zeros::<S>(rows as nat)) =~= base);
    } else {
        let shorter = right.drop_last();
        let (row, column, value) = right.last();
        assert(right[right.len() - 1].0 < rows);
        assert forall|i: int| 0 <= i < shorter.len() implies (#[trigger] shorter[i]).0 < rows
            && shorter[i].1 < columns by {
            assert(right[i].0 < rows);
        }
        lemma_joined_apply(left, shorter, x, rows, columns);
        linear::lemma_entries_apply(shorter, x, rows, columns);
        assert((left + right).drop_last() =~= left + shorter);
        S::plus_associates(
            base[row as int],
            linear::entries_apply(shorter, x, rows as nat)[row as int],
            value.spec_times(x[column as int]),
        );
        assert(linear::entries_apply(left + right, x, rows as nat) =~= linear::vector_sum(
            base,
            linear::entries_apply(right, x, rows as nat),
        ));
    }
}

proof fn lemma_first_terms<B: Basis, S: Weighing<B::Phase>>(
    basis: B,
    left: Seq<TermModel<S>>,
    right: Seq<TermModel<S>>,
    column: usize,
    count: nat,
)
    requires
        count <= left.len(),
    ensures
        assembly::term_entries(basis, left + right, column, count) == assembly::term_entries(
            basis,
            left,
            column,
            count,
        ),
    decreases count,
{
    if count > 0 {
        lemma_first_terms(basis, left, right, column, (count - 1) as nat);
        assert((left + right)[count - 1] == left[count - 1]);
    }
}

proof fn lemma_joined_terms<B: Basis, S: Weighing<B::Phase>>(
    basis: B,
    left: Seq<TermModel<S>>,
    right: Seq<TermModel<S>>,
    column: usize,
    count: nat,
)
    requires
        count <= right.len(),
        assembly::term_entries(basis, left, column, left.len()) is Ok,
        assembly::term_entries(basis, right, column, count) is Ok,
    ensures
        assembly::term_entries(basis, left + right, column, left.len() + count) == Ok::<
            Seq<(usize, usize, S)>,
            crate::error::QmbedError,
        >(
            assembly::term_entries(basis, left, column, left.len())->Ok_0 + assembly::term_entries(
                basis,
                right,
                column,
                count,
            )->Ok_0,
        ),
    decreases count,
{
    let first = assembly::term_entries(basis, left, column, left.len())->Ok_0;
    if count == 0 {
        lemma_first_terms(basis, left, right, column, left.len());
        assert(first + Seq::<(usize, usize, S)>::empty() =~= first);
    } else {
        let fewer = (count - 1) as nat;
        lemma_joined_terms(basis, left, right, column, fewer);
        assert((left + right)[left.len() + count - 1] == right[count - 1]);
        let before = assembly::term_entries(basis, right, column, fewer)->Ok_0;
        let term = right[count - 1];
        let added = assembly::coupling_entries(
            basis,
            term.operator,
            term.couplings,
            column,
            term.couplings.len(),
        )->Ok_0;
        assert((first + before) + added =~= first + (before + added));
    }
}

proof fn lemma_columns_join<B: Basis, S: Weighing<B::Phase> + ExactScalar>(
    basis: B,
    left: Seq<TermModel<S>>,
    right: Seq<TermModel<S>>,
    x: Seq<S>,
    count: nat,
    length: usize,
)
    requires
        basis.spec_states().len() == length,
        count <= length,
        assembly::column_entries(basis, left, count) is Ok,
        assembly::column_entries(basis, right, count) is Ok,
    ensures
        assembly::column_entries(basis, left + right, count) is Ok,
        linear::entries_apply(
            assembly::column_entries(basis, left + right, count)->Ok_0,
            x,
            length as nat,
        ) == linear::vector_sum(
            linear::entries_apply(
                assembly::column_entries(basis, left, count)->Ok_0,
                x,
                length as nat,
            ),
            linear::entries_apply(
                assembly::column_entries(basis, right, count)->Ok_0,
                x,
                length as nat,
            ),
        ),
    decreases count,
{
    let rows = length as nat;
    if count == 0 {
        S::zero_is_neutral(S::spec_zero());
        assert(linear::vector_sum(linear::zeros::<S>(rows), linear::zeros::<S>(rows))
            =~= linear::zeros::<S>(rows));
    } else {
        let fewer = (count - 1) as nat;
        let column = fewer as usize;
        lemma_columns_join(basis, left, right, x, fewer, length);
        lemma_joined_terms(basis, left, right, column, right.len());
        assembly::lemma_column_entries_fit(basis, left, fewer, length);
        assembly::lemma_column_entries_fit(basis, right, fewer, length);
        assembly::lemma_column_entries_fit(basis, left + right, fewer, length);
        assembly::lemma_term_entries_fit(basis, left, column, left.len(), length);
        assembly::lemma_term_entries_fit(basis, right, column, right.len(), length);
        assembly::lemma_term_entries_fit(
            basis,
            left + right,
            column,
            (left + right).len(),
            length,
        );
        let both = assembly::column_entries(basis, left + right, fewer)->Ok_0;
        let one = assembly::column_entries(basis, left, fewer)->Ok_0;
        let other = assembly::column_entries(basis, right, fewer)->Ok_0;
        let first = assembly::term_entries(basis, left, column, left.len())->Ok_0;
        let second = assembly::term_entries(basis, right, column, right.len())->Ok_0;
        lemma_joined_apply(both, first + second, x, length, length);
        lemma_joined_apply(first, second, x, length, length);
        lemma_joined_apply(one, first, x, length, length);
        lemma_joined_apply(other, second, x, length, length);
        linear::lemma_entries_apply(one, x, length, length);
        linear::lemma_entries_apply(other, x, length, length);
        linear::lemma_entries_apply(first, x, length, length);
        linear::lemma_entries_apply(second, x, length, length);
        let (a, b) = (
            linear::entries_apply(one, x, rows),
            linear::entries_apply(other, x, rows),
        );
        let (c, d) = (
            linear::entries_apply(first, x, rows),
            linear::entries_apply(second, x, rows),
        );
        let joined = linear::vector_sum(linear::vector_sum(a, b), linear::vector_sum(c, d));
        let apart = linear::vector_sum(linear::vector_sum(a, c), linear::vector_sum(b, d));
        assert forall|i: int| 0 <= i < rows implies #[trigger] joined[i] == apart[i] by {
            exact::lemma_crosswise(a[i], b[i], c[i], d[i]);
        }
        assert(joined =~= apart);
    }
}

/// Terms add up: where two lists of terms have a matrix each that need not be Hermitian, their
/// union has one, and it takes every vector to the sum of the two images.
pub proof fn law_terms_add_up<B: Basis, S: Weighing<B::Phase> + ExactScalar>(
    basis: B,
    left: Seq<TermModel<S>>,
    right: Seq<TermModel<S>>,
    x: Seq<S>,
    checks: AssemblyChecks,
    format: MatrixFormat,
)
    requires
        basis.spec_states().len() <= usize::MAX,
        !checks.hermiticity,
        assembly::assembled(basis, left, checks, format) is Ok,
        assembly::assembled(basis, right, checks, format) is Ok,
    ensures
        ({
            let rows = basis.spec_states().len();
            let (one, other, both) = (
                assembly::assembled(basis, left, checks, format),
                assembly::assembled(basis, right, checks, format),
                assembly::assembled(basis, left + right, checks, format),
            );
            &&& both is Ok
            &&& linear::entries_apply(both->Ok_0.entries, x, rows) == linear::vector_sum(
                linear::entries_apply(one->Ok_0.entries, x, rows),
                linear::entries_apply(other->Ok_0.entries, x, rows),
            )
        }),
{
    let length = basis.spec_states().len();
    lemma_columns_join(basis, left, right, x, length, length as usize);
    if checks.particle_conservation {
        checks::lemma_joined_terms(basis, left, right, left.len() + right.len());
    }
}

} // verus!

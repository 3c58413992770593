//! Direct products of bases.

use vstd::arithmetic::div_mod::*;
use vstd::arithmetic::mul::*;
use vstd::prelude::*;
use vstd::slice::slice_subrange;
use vstd::string::*;

use crate::basis;
use crate::basis::{Basis, EitherPhase, Factor, Pair, Transitions};
use crate::error::{OperatorFault, QmbedError, Reason, Result};
use crate::symbols;
use crate::symbols::{characters, find_separator};

verus! {

/// Direct-product basis. Operator strings use `left|right` factor syntax.
#[derive(Clone, Debug)]
pub struct TensorBasis<Left, Right> {
    left: Left,
    right: Right,
}

/// Pairs of the states of two lists, the first counting slowest.
pub open spec fn paired<A, B>(left: Seq<A>, right: Seq<B>) -> Seq<Pair<A, B>> {
    let width = right.len() as int;
    Seq::new(left.len() * right.len(), |i: int| Pair { left: left[i / width], right: right[i % width] })
}

/// Pairs of the destinations of two lists; the amplitudes multiply.
pub open spec fn paired_transitions<A, B, P, Q>(
    left: Seq<(A, Seq<Factor<P>>)>,
    right: Seq<(B, Seq<Factor<Q>>)>,
) -> Seq<(Pair<A, B>, Seq<Factor<EitherPhase<P, Q>>>)> {
    let width = right.len() as int;
    Seq::new(
        left.len() * right.len(),
        |i: int|
            (
                Pair { left: left[i / width].0, right: right[i % width].0 },
                basis::left_factors::<P, Q>(left[i / width].1) + basis::right_factors::<P, Q>(
                    right[i % width].1,
                ),
            ),
    )
}

/// Destinations of one factor of an operator string; an empty factor changes nothing.
pub open spec fn factor_transitions<B: Basis>(
    part: B,
    state: B::State,
    operator: Seq<char>,
    sites: Seq<usize>,
) -> core::result::Result<Seq<(B::State, Seq<Factor<B::Phase>>)>, QmbedError> {
    if operator.len() == 0 {
        Ok(seq![(state, Seq::empty())])
    } else {
        part.spec_transitions(state, operator, sites)
    }
}

/// The factor in front of the separator.
pub open spec fn left_part(operator: Seq<char>) -> Seq<char> {
    operator.subrange(0, symbols::first_separator(operator))
}

/// The factor behind the separator.
pub open spec fn right_part(operator: Seq<char>) -> Seq<char> {
    operator.subrange(symbols::first_separator(operator) + 1, operator.len() as int)
}

/// Number of separators, as far as it matters.
pub open spec fn separated(operator: Seq<char>) -> bool {
    symbols::first_separator(operator) < operator.len()
}

/// Numbers of pairs.
pub proof fn lemma_pair_number(row: int, column: int, width: int)
    requires
        0 <= column < width,
        0 <= row,
    ensures
        (row * width + column) / width == row,
        (row * width + column) % width == column,
{
    lemma_fundamental_div_mod_converse(row * width + column, width, row, column);
}

/// Row and column of a pair.
proof fn lemma_pair_place(index: int, height: nat, width: nat)
    requires
        0 <= index < height * width,
    ensures
        width > 0,
        0 <= index / (width as int) < height,
        0 <= index % (width as int) < width,
        index == (index / (width as int)) * width + index % (width as int),
{
    assert(width > 0) by (nonlinear_arith)
        requires
            0 <= index < height * width,
    ;
    lemma_fundamental_div_mod(index, width as int);
    lemma_mod_bound(index, width as int);
    lemma_mul_is_commutative(width as int, index / (width as int));
    lemma_div_pos_is_pos(index, width as int);
    lemma_mul_is_commutative(height as int, width as int);
    lemma_multiply_divide_lt(index, width as int, height as int);
}

/// Pairs of numbers stay in range.
pub proof fn lemma_pair_bound(row: int, column: int, height: nat, width: nat)
    requires
        0 <= row < height,
        0 <= column < width,
    ensures
        0 <= row * width + column < height * width,
{
    assert(0 <= row * width + column < height * width) by (nonlinear_arith)
        requires
            0 <= row,
            row + 1 <= height,
            0 <= column < width,
    ;
}

/// Where an operator string is split, and whether it is split once.
fn split_operator(operator: &str) -> (result: (usize, usize, bool))
    ensures
        result.0 == symbols::first_separator(operator@),
        result.1 == operator@.len(),
        result.0 < result.1 ==> result.2 == !separated(right_part(operator@)),
        result.0 <= result.1,
{
    let text: Vec<char> = characters(operator);
    let place: usize = find_separator(&text, 0);
    proof {
        symbols::lemma_first_separator(operator@);
        symbols::lemma_first_separator(right_part(operator@));
    }
    if place == text.len() {
        return (place, text.len(), true);
    }
    let more: usize = find_separator(&text, place + 1);
    proof {
        let right = right_part(operator@);
        let found = symbols::first_separator(right);
        if found < right.len() {
            assert(text@[place + 1 + found] == '|');
        }
        if more < text@.len() {
            assert(right[more - place - 1] == '|');
        }
    }
    (place, text.len(), more == text.len())
}

/// Pairs of the destinations of two lists.
fn pair_up<A: Copy, B: Copy, P: Copy, Q: Copy>(
    left: &Transitions<A, P>,
    right: &Transitions<B, Q>,
) -> (transitions: Transitions<Pair<A, B>, EitherPhase<P, Q>>)
    ensures
        basis::transitions_view(transitions@) == paired_transitions(
            basis::transitions_view(left@),
            basis::transitions_view(right@),
        ),
{
    let ghost rows = basis::transitions_view(left@);
    let ghost columns = basis::transitions_view(right@);
    let ghost whole = paired_transitions(rows, columns);
    let ghost width = columns.len();
    let mut transitions: Transitions<Pair<A, B>, EitherPhase<P, Q>> = Vec::new();
    let mut row: usize = 0;
    assert(basis::transitions_view(transitions@) =~= whole.take(0));
    while row < left.len()
        invariant
            row <= left@.len(),
            rows == basis::transitions_view(left@),
            columns == basis::transitions_view(right@),
            width == columns.len(),
            whole == paired_transitions(rows, columns),
            row * width <= whole.len(),
            basis::transitions_view(transitions@) == whole.take(row * width),
        decreases left@.len() - row,
    {
        let mut column: usize = 0;
        while column < right.len()
            invariant
                row < left@.len(),
                column <= right@.len(),
                rows == basis::transitions_view(left@),
                columns == basis::transitions_view(right@),
                width == columns.len(),
                whole == paired_transitions(rows, columns),
                0 <= row * width + column <= whole.len(),
                basis::transitions_view(transitions@) == whole.take(row * width + column),
            decreases right@.len() - column,
        {
            let ghost before = transitions@;
            let ghost k = row * width + column;
            proof {
                lemma_pair_bound(row as int, column as int, rows.len(), width);
                lemma_pair_number(row as int, column as int, width as int);
                assert(rows[row as int] == (left@[row as int].0, left@[row as int].1@));
                assert(columns[column as int] == (
                    right@[column as int].0,
                    right@[column as int].1@,
                ));
            }
            let mut amplitude: Vec<Factor<EitherPhase<P, Q>>> = Vec::new();
            basis::append_left(&mut amplitude, &left[row].1);
            basis::append_right(&mut amplitude, &right[column].1);
            transitions.push((Pair { left: left[row].0, right: right[column].0 }, amplitude));
            proof {
                let entry = (
                    Pair { left: left@[row as int].0, right: right@[column as int].0 },
                    amplitude@,
                );
                assert(amplitude@ =~= whole[k].1);
                assert(basis::transitions_view(transitions@) =~= basis::transitions_view(
                    before,
                ).push(entry));
                assert(whole.take(k + 1) =~= whole.take(k).push(whole[k]));
                assert(entry == whole[k]);
            }
            column += 1;
        }
        row += 1;
        proof {
            assert(row * width == (row - 1) * width + width) by (nonlinear_arith)
                requires
                    row >= 1,
            ;
        }
    }
    assert(whole.take(row * width) =~= whole);
    transitions
}

/// Destinations of one factor of an operator string.
fn apply_factor<B: Basis>(part: &B, state: B::State, operator: &str, sites: &[usize]) -> (result:
    Result<Transitions<B::State, B::Phase>>)
    requires
        part.wf(),
        part.acts_on(state),
    ensures
        basis::transitions_are(result, factor_transitions(*part, state, operator@, sites@)),
{
    if operator.unicode_len() == 0 {
        let mut transitions: Transitions<B::State, B::Phase> = Vec::new();
        let none: Vec<Factor<B::Phase>> = Vec::new();
        transitions.push((state, none));
        assert(basis::transitions_view(transitions@) =~= seq![(state, Seq::empty())]);
        return Ok(transitions);
    }
    part.apply_local_transitions(state, operator, sites)
}

impl<Left: Basis, Right: Basis> TensorBasis<Left, Right> {
    pub closed spec fn spec_left(&self) -> Left {
        self.left
    }

    pub closed spec fn spec_right(&self) -> Right {
        self.right
    }

    /// Factors that go together: their product can be numbered.
    pub open spec fn valid(&self) -> bool {
        &&& self.spec_left().wf()
        &&& self.spec_right().wf()
        &&& self.spec_left().spec_states().len() * self.spec_right().spec_states().len()
            <= usize::MAX
    }

    /// The product of two bases.
    pub fn new(left: Left, right: Right) -> (result: Result<Self>)
        requires
            left.wf(),
            right.wf(),
        ensures
            match result {
                Ok(product) => {
                    &&& product.valid()
                    &&& product.spec_left() == left
                    &&& product.spec_right() == right
                },
                Err(error) => {
                    &&& left.spec_states().len() * right.spec_states().len() > usize::MAX
                    &&& error == QmbedError::UnsupportedBackend(Reason::Text("tensor-basis size overflow"))
                },
            },
    {
        match left.len().checked_mul(right.len()) {
            Some(_) => Ok(TensorBasis { left, right }),
            None => Err(QmbedError::UnsupportedBackend(Reason::Text("tensor-basis size overflow"))),
        }
    }

    /// The first factor.
    pub fn left(&self) -> (left: &Left)
        ensures
            *left == self.spec_left(),
    {
        &self.left
    }

    /// The second factor.
    pub fn right(&self) -> (right: &Right)
        ensures
            *right == self.spec_right(),
    {
        &self.right
    }

    /// The only destination of a local operator string.
    pub fn apply_local(
        &self,
        state: Pair<Left::State, Right::State>,
        operator: &str,
        sites: &[usize],
    ) -> (result: Result<
        Option<
            (Pair<Left::State, Right::State>, Vec<Factor<EitherPhase<Left::Phase, Right::Phase>>>),
        >,
    >)
        requires
            self.valid(),
            self.acts_on(state),
        ensures
            basis::transition_is(
                result,
                basis::single_transition(
                    self.spec_transitions(state, operator@, sites@),
                    QmbedError::UnsupportedBackend(
                        Reason::Text("this tensor local action branches; use apply_local_transitions"),
                    ),
                ),
            ),
    {
        match self.apply_local_transitions(state, operator, sites) {
            Ok(transitions) => basis::only_transition(
                transitions,
                QmbedError::UnsupportedBackend(
                    Reason::Text("this tensor local action branches; use apply_local_transitions"),
                ),
            ),
            Err(error) => Err(error),
        }
    }
}

impl<Left: Basis, Right: Basis> Basis for TensorBasis<Left, Right> {
    type State = Pair<Left::State, Right::State>;

    type Phase = EitherPhase<Left::Phase, Right::Phase>;

    open spec fn wf(&self) -> bool {
        self.valid()
    }

    open spec fn spec_states(&self) -> Seq<Pair<Left::State, Right::State>> {
        paired(self.spec_left().spec_states(), self.spec_right().spec_states())
    }

    open spec fn acts_on(&self, state: Pair<Left::State, Right::State>) -> bool {
        &&& self.spec_left().acts_on(state.left)
        &&& self.spec_right().acts_on(state.right)
    }

    open spec fn spec_transitions(
        &self,
        state: Pair<Left::State, Right::State>,
        operator: Seq<char>,
        sites: Seq<usize>,
    ) -> core::result::Result<
        Seq<(Pair<Left::State, Right::State>, Seq<Factor<EitherPhase<Left::Phase, Right::Phase>>>)>,
        QmbedError,
    > {
        let left = left_part(operator);
        let right = right_part(operator);
        if !separated(operator) {
            Err(
                QmbedError::InvalidOperator(
                    OperatorFault::Text(
                        "tensor-basis operator strings must contain one `|` separator",
                    ),
                ),
            )
        } else if separated(right) {
            Err(
                QmbedError::InvalidOperator(
                    OperatorFault::Text(
                        "a two-factor tensor operator contains too many separators",
                    ),
                ),
            )
        } else if sites.len() != left.len() + right.len() {
            Err(QmbedError::InvalidCoupling(Reason::Text("tensor operator arity does not match its sites")))
        } else {
            match factor_transitions(
                self.spec_left(),
                state.left,
                left,
                sites.subrange(0, left.len() as int),
            ) {
                Err(error) => Err(error),
                Ok(rows) => match factor_transitions(
                    self.spec_right(),
                    state.right,
                    right,
                    sites.subrange(left.len() as int, sites.len() as int),
                ) {
                    Err(error) => Err(error),
                    Ok(columns) => Ok(paired_transitions(rows, columns)),
                },
            }
        }
    }

    open spec fn spec_preserves(&self, operator: Seq<char>) -> core::result::Result<
        bool,
        QmbedError,
    > {
        if !separated(operator) || separated(right_part(operator)) {
            Err(QmbedError::InvalidOperator(OperatorFault::Whole))
        } else {
            match self.spec_left().spec_preserves(left_part(operator)) {
                Err(error) => Err(error),
                Ok(false) => Ok(false),
                Ok(true) => self.spec_right().spec_preserves(right_part(operator)),
            }
        }
    }

    open spec fn spec_preserves_on_sites(
        &self,
        operator: Seq<char>,
        sites: Seq<usize>,
    ) -> core::result::Result<bool, QmbedError> {
        self.spec_preserves(operator)
    }

    open spec fn faithful(&self) -> bool {
        &&& self.spec_left().faithful()
        &&& self.spec_right().faithful()
    }

    proof fn states_distinct(&self) {
        let left = self.left.spec_states();
        let right = self.right.spec_states();
        let width = right.len() as int;
        let whole = paired(left, right);
        self.left.states_distinct();
        self.right.states_distinct();
        assert forall|i: int, j: int|
            0 <= i < whole.len() && 0 <= j < whole.len() && i != j implies whole[i] != whole[j] by {
            lemma_pair_place(i, left.len(), right.len());
            lemma_pair_place(j, left.len(), right.len());
            if whole[i] == whole[j] {
                assert(left[i / width] == left[j / width]);
                assert(right[i % width] == right[j % width]);
                assert(i / width == j / width);
                assert(i % width == j % width);
            }
        }
    }

    proof fn acts_on_states(&self, index: int) {
        let left = self.left.spec_states();
        let right = self.right.spec_states();
        lemma_pair_place(index, left.len(), right.len());
        self.left.acts_on_states(index / (right.len() as int));
        self.right.acts_on_states(index % (right.len() as int));
    }

    fn len(&self) -> (length: usize) {
        self.left.len() * self.right.len()
    }

    fn state(&self, index: usize) -> (result: Result<Pair<Left::State, Right::State>>) {
        if index >= self.len() {
            return Err(QmbedError::StateNotInBasis);
        }
        proof {
            lemma_pair_place(
                index as int,
                self.left.spec_states().len(),
                self.right.spec_states().len(),
            );
        }
        let width: usize = self.right.len();
        let left: Left::State = match self.left.state(index / width) {
            Ok(left) => left,
            Err(error) => {
                return Err(error);
            },
        };
        let right: Right::State = match self.right.state(index % width) {
            Ok(right) => right,
            Err(error) => {
                return Err(error);
            },
        };
        Ok(Pair { left, right })
    }

    fn index(&self, state: Pair<Left::State, Right::State>) -> (result: Result<usize>) {
        let ghost left = self.left.spec_states();
        let ghost right = self.right.spec_states();
        let ghost whole = paired(left, right);
        let row: usize = match self.left.index(state.left) {
            Ok(row) => row,
            Err(error) => {
                proof {
                    if whole.contains(state) {
                        let i = whole.index_of(state);
                        lemma_pair_place(i, left.len(), right.len());
                        assert(left[i / (right.len() as int)] == state.left);
                    }
                }
                return Err(error);
            },
        };
        let column: usize = match self.right.index(state.right) {
            Ok(column) => column,
            Err(error) => {
                proof {
                    if whole.contains(state) {
                        let i = whole.index_of(state);
                        lemma_pair_place(i, left.len(), right.len());
                        assert(right[i % (right.len() as int)] == state.right);
                    }
                }
                return Err(error);
            },
        };
        let width: usize = self.right.len();
        proof {
            lemma_pair_bound(row as int, column as int, left.len(), right.len());
            lemma_pair_number(row as int, column as int, right.len() as int);
            assert(0 <= row * width) by (nonlinear_arith)
                requires
                    row >= 0,
                    width >= 0,
            ;
        }
        Ok(row * width + column)
    }

    fn apply_local_transitions(
        &self,
        state: Pair<Left::State, Right::State>,
        operator: &str,
        sites: &[usize],
    ) -> (result: Result<
        Transitions<Pair<Left::State, Right::State>, EitherPhase<Left::Phase, Right::Phase>>,
    >) {
        let (place, length, once) = split_operator(operator);
        if place == length {
            return Err(
                QmbedError::InvalidOperator(
                    OperatorFault::Text(
                        "tensor-basis operator strings must contain one `|` separator",
                    ),
                ),
            );
        }
        if !once {
            return Err(
                QmbedError::InvalidOperator(
                    OperatorFault::Text(
                        "a two-factor tensor operator contains too many separators",
                    ),
                ),
            );
        }
        if sites.len() != length - 1 {
            return Err(
                QmbedError::InvalidCoupling(Reason::Text("tensor operator arity does not match its sites")),
            );
        }
        let left_operator: &str = operator.substring_char(0, place);
        let right_operator: &str = operator.substring_char(place + 1, length);
        let rows = match apply_factor(
            &self.left,
            state.left,
            left_operator,
            slice_subrange(sites, 0, place),
        ) {
            Ok(rows) => rows,
            Err(error) => {
                return Err(error);
            },
        };
        let columns = match apply_factor(
            &self.right,
            state.right,
            right_operator,
            slice_subrange(sites, place, sites.len()),
        ) {
            Ok(columns) => columns,
            Err(error) => {
                return Err(error);
            },
        };
        Ok(pair_up(&rows, &columns))
    }

    fn operator_preserves_particle_sector_on_sites(
        &self,
        operator: &str,
        sites: &[usize],
    ) -> (result: Result<bool>) {
        self.operator_preserves_particle_sector(operator)
    }

    fn operator_preserves_particle_sector(&self, operator: &str) -> (result: Result<bool>) {
        let (place, length, once) = split_operator(operator);
        if place == length || !once {
            return Err(QmbedError::InvalidOperator(OperatorFault::Whole));
        }
        let left_operator: &str = operator.substring_char(0, place);
        let right_operator: &str = operator.substring_char(place + 1, length);
        match self.left.operator_preserves_particle_sector(left_operator) {
            Ok(true) => self.right.operator_preserves_particle_sector(right_operator),
            Ok(false) => Ok(false),
            Err(error) => Err(error),
        }
    }
}

/// The number of a pair counts its first state in steps of the size of the second basis.
pub proof fn law_pair_number<Left: Basis, Right: Basis>(
    product: &TensorBasis<Left, Right>,
    row: int,
    column: int,
)
    requires
        product.wf(),
        0 <= row < product.spec_left().spec_states().len(),
        0 <= column < product.spec_right().spec_states().len(),
    ensures
        ({
            let width = product.spec_right().spec_states().len() as int;
            &&& row * width + column < product.spec_states().len()
            &&& product.spec_states()[row * width + column] == (Pair {
                left: product.spec_left().spec_states()[row],
                right: product.spec_right().spec_states()[column],
            })
        }),
{
    let height = product.spec_left().spec_states().len();
    let width = product.spec_right().spec_states().len();
    lemma_pair_bound(row, column, height, width);
    lemma_pair_number(row, column, width as int);
}

} // verus!

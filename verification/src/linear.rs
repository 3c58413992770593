//! Linear operators over exact or approximate scalars.

use vstd::prelude::*;

use crate::error::{QmbedError, Reason, Result};

verus! {

/// Entries of a vector, as contracts speak of them.
pub type Entries<T> = Seq<T>;

/// Length of a vector, as contracts speak of it.
pub type Extent = nat;

/// Position in a vector, as contracts speak of it.
pub type Place = int;

/// Entries of vectors and matrices.
pub trait Scalar: Copy + Sized {
    /// Distances between scalars, and bounds on them.
    type Size: Copy;

    spec fn spec_zero() -> Self;

    spec fn spec_one() -> Self;

    spec fn spec_plus(self, other: Self) -> Self;

    spec fn spec_times(self, other: Self) -> Self;

    spec fn spec_conjugate(self) -> Self;

    /// Whether two scalars compare equal.
    spec fn spec_same(self, other: Self) -> bool;

    /// Whether the scalar is a number at all.
    spec fn spec_is_finite(self) -> bool;

    /// Whether the scalar has no imaginary part.
    spec fn spec_is_real(self) -> bool;

    /// The scalar without its imaginary part.
    spec fn spec_real_part(self) -> Self;

    /// Whether the scalar is too small to be stored.
    spec fn spec_is_negligible(self) -> bool;

    /// How far apart rounded arithmetic may leave scalars that are meant to be equal.
    spec fn spec_rounding() -> Self::Size;

    /// Whether a tolerance is positive and finite.
    spec fn spec_usable(tolerance: Self::Size) -> bool;

    /// The distance of a scalar from itself.
    spec fn spec_no_size() -> Self::Size;

    spec fn spec_distance(self, other: Self) -> Self::Size;

    /// Whether a distance does not exceed a tolerance.
    spec fn spec_within(size: Self::Size, tolerance: Self::Size) -> bool;

    spec fn spec_larger(left: Self::Size, right: Self::Size) -> Self::Size;

    fn zero() -> (value: Self)
        ensures
            value == Self::spec_zero(),
    ;

    fn one() -> (value: Self)
        ensures
            value == Self::spec_one(),
    ;

    fn plus(&self, other: &Self) -> (value: Self)
        ensures
            value == self.spec_plus(*other),
    ;

    fn times(&self, other: &Self) -> (value: Self)
        ensures
            value == self.spec_times(*other),
    ;

    fn conjugate(&self) -> (value: Self)
        ensures
            value == self.spec_conjugate(),
    ;

    fn same(&self, other: &Self) -> (answer: bool)
        ensures
            answer == self.spec_same(*other),
    ;

    fn is_finite(&self) -> (answer: bool)
        ensures
            answer == self.spec_is_finite(),
    ;

    fn is_real(&self) -> (answer: bool)
        ensures
            answer == self.spec_is_real(),
    ;

    fn real_part(&self) -> (value: Self)
        ensures
            value == self.spec_real_part(),
    ;

    fn is_negligible(&self) -> (answer: bool)
        ensures
            answer == self.spec_is_negligible(),
    ;

    fn rounding() -> (size: Self::Size)
        ensures
            size == Self::spec_rounding(),
    ;

    fn usable(tolerance: Self::Size) -> (answer: bool)
        ensures
            answer == Self::spec_usable(tolerance),
    ;

    fn no_size() -> (size: Self::Size)
        ensures
            size == Self::spec_no_size(),
    ;

    fn distance(&self, other: &Self) -> (size: Self::Size)
        ensures
            size == self.spec_distance(*other),
    ;

    fn within(size: Self::Size, tolerance: Self::Size) -> (answer: bool)
        ensures
            answer == Self::spec_within(size, tolerance),
    ;

    fn larger(left: Self::Size, right: Self::Size) -> (size: Self::Size)
        ensures
            size == Self::spec_larger(left, right),
    ;
}

/// How far two integers are apart.
pub open spec fn gap(left: i64, right: i64) -> u64 {
    if left <= right {
        (right - left) as u64
    } else {
        (left - right) as u64
    }
}

fn gap_between(left: i64, right: i64) -> (size: u64)
    ensures
        size == gap(left, right),
{
    if left <= right {
        (right as i128 - left as i128) as u64
    } else {
        (left as i128 - right as i128) as u64
    }
}

/// Gaussian integers; parts wrap around at 64 bits.
#[derive(Clone, Copy, Debug, PartialEq, Eq, Structural)]
pub struct Gaussian {
    /// Real part.
    pub re: i64,
    /// Imaginary part.
    pub im: i64,
}

impl Scalar for Gaussian {
    type Size = u64;

    open spec fn spec_zero() -> Self {
        Gaussian { re: 0, im: 0 }
    }

    open spec fn spec_one() -> Self {
        Gaussian { re: 1, im: 0 }
    }

    open spec fn spec_plus(self, other: Self) -> Self {
        Gaussian { re: self.re.wrapping_add(other.re), im: self.im.wrapping_add(other.im) }
    }

    open spec fn spec_times(self, other: Self) -> Self {
        Gaussian {
            re: self.re.wrapping_mul(other.re).wrapping_sub(self.im.wrapping_mul(other.im)),
            im: self.re.wrapping_mul(other.im).wrapping_add(self.im.wrapping_mul(other.re)),
        }
    }

    open spec fn spec_conjugate(self) -> Self {
        Gaussian { re: self.re, im: 0i64.wrapping_sub(self.im) }
    }

    open spec fn spec_same(self, other: Self) -> bool {
        self == other
    }

    open spec fn spec_is_finite(self) -> bool {
        true
    }

    open spec fn spec_is_real(self) -> bool {
        self.im == 0
    }

    open spec fn spec_real_part(self) -> Self {
        Gaussian { re: self.re, im: 0 }
    }

    open spec fn spec_is_negligible(self) -> bool {
        self.re == 0 && self.im == 0
    }

    open spec fn spec_rounding() -> u64 {
        0
    }

    open spec fn spec_usable(tolerance: u64) -> bool {
        tolerance > 0
    }

    open spec fn spec_no_size() -> u64 {
        0
    }

    open spec fn spec_distance(self, other: Self) -> u64 {
        Self::spec_larger(gap(self.re, other.re), gap(self.im, other.im))
    }

    open spec fn spec_within(size: u64, tolerance: u64) -> bool {
        size <= tolerance
    }

    open spec fn spec_larger(left: u64, right: u64) -> u64 {
        if left < right {
            right
        } else {
            left
        }
    }

    fn zero() -> (value: Self) {
        Gaussian { re: 0, im: 0 }
    }

    fn one() -> (value: Self) {
        Gaussian { re: 1, im: 0 }
    }

    fn plus(&self, other: &Self) -> (value: Self) {
        Gaussian { re: self.re.wrapping_add(other.re), im: self.im.wrapping_add(other.im) }
    }

    fn times(&self, other: &Self) -> (value: Self) {
        Gaussian {
            re: self.re.wrapping_mul(other.re).wrapping_sub(self.im.wrapping_mul(other.im)),
            im: self.re.wrapping_mul(other.im).wrapping_add(self.im.wrapping_mul(other.re)),
        }
    }

    fn conjugate(&self) -> (value: Self) {
        Gaussian { re: self.re, im: 0i64.wrapping_sub(self.im) }
    }

    fn same(&self, other: &Self) -> (answer: bool) {
        *self == *other
    }

    fn is_finite(&self) -> (answer: bool) {
        true
    }

    fn is_real(&self) -> (answer: bool) {
        self.im == 0
    }

    fn real_part(&self) -> (value: Self) {
        Gaussian { re: self.re, im: 0 }
    }

    fn is_negligible(&self) -> (answer: bool) {
        self.re == 0 && self.im == 0
    }

    fn rounding() -> (size: u64) {
        0
    }

    fn usable(tolerance: u64) -> (answer: bool) {
        tolerance > 0
    }

    fn no_size() -> (size: u64) {
        0
    }

    fn distance(&self, other: &Self) -> (size: u64) {
        Self::larger(gap_between(self.re, other.re), gap_between(self.im, other.im))
    }

    fn within(size: u64, tolerance: u64) -> (answer: bool) {
        size <= tolerance
    }

    fn larger(left: u64, right: u64) -> (size: u64) {
        if left < right {
            right
        } else {
            left
        }
    }
}

/// A vector of zeros.
pub open spec fn zeros<S: Scalar>(length: nat) -> Seq<S> {
    Seq::new(length, |i: int| S::spec_zero())
}

/// A vector of zeros with a one.
pub open spec fn unit<S: Scalar>(length: nat, place: nat) -> Seq<S> {
    Seq::new(
        length,
        |i: int| if i == place {
            S::spec_one()
        } else {
            S::spec_zero()
        },
    )
}

/// Sums of the entries of two vectors.
pub open spec fn vector_sum<S: Scalar>(left: Seq<S>, right: Seq<S>) -> Seq<S> {
    Seq::new(left.len(), |i: int| left[i].spec_plus(right[i]))
}

/// A vector plus a multiple of another.
pub open spec fn add_scaled<S: Scalar>(target: Seq<S>, factor: S, vector: Seq<S>) -> Seq<S> {
    Seq::new(target.len(), |i: int| target[i].spec_plus(factor.spec_times(vector[i])))
}

/// Conjugates of the entries of a vector.
pub open spec fn conjugated<S: Scalar>(vector: Seq<S>) -> Seq<S> {
    Seq::new(vector.len(), |i: int| vector[i].spec_conjugate())
}

/// Multiples of the entries of a vector.
pub open spec fn scaled<S: Scalar>(vector: Seq<S>, factor: S) -> Seq<S> {
    Seq::new(vector.len(), |i: int| vector[i].spec_times(factor))
}

/// Whether a returned vector is the stated one.
pub open spec fn vector_is<S>(
    result: Result<Vec<S>>,
    stated: core::result::Result<Seq<S>, QmbedError>,
) -> bool {
    match result {
        Ok(vector) => stated == Ok::<Seq<S>, QmbedError>(vector@),
        Err(error) => stated == Err::<Seq<S>, QmbedError>(error),
    }
}

/// A vector of zeros.
pub fn zero_vector<S: Scalar>(length: usize) -> (vector: Vec<S>)
    ensures
        vector@ == zeros::<S>(length as nat),
{
    let mut vector: Vec<S> = Vec::new();
    let mut next: usize = 0;
    while next < length
        invariant
            next <= length,
            vector@ == zeros::<S>(next as nat),
        decreases length - next,
    {
        vector.push(S::zero());
        next += 1;
        assert(vector@ =~= zeros::<S>(next as nat));
    }
    vector
}

/// A vector of zeros with a one.
pub fn unit_vector<S: Scalar>(length: usize, place: usize) -> (vector: Vec<S>)
    requires
        place < length,
    ensures
        vector@ == unit::<S>(length as nat, place as nat),
{
    let mut vector: Vec<S> = zero_vector(length);
    vector[place] = S::one();
    assert(vector@ =~= unit::<S>(length as nat, place as nat));
    vector
}

/// Adds a vector to another.
pub fn add_vector<S: Scalar>(target: &mut Vec<S>, vector: &Vec<S>)
    requires
        old(target)@.len() == vector@.len(),
    ensures
        final(target)@ == vector_sum(old(target)@, vector@),
{
    let ghost before = target@;
    let mut next: usize = 0;
    while next < vector.len()
        invariant
            next <= vector@.len(),
            before.len() == vector@.len(),
            target@.len() == vector@.len(),
            forall|i: int|
                0 <= i < next ==> #[trigger] target@[i] == before[i].spec_plus(vector@[i]),
            forall|i: int| next <= i < vector@.len() ==> #[trigger] target@[i] == before[i],
        decreases vector@.len() - next,
    {
        let value: S = target[next].plus(&vector[next]);
        target[next] = value;
        next += 1;
    }
    assert(target@ =~= vector_sum(before, vector@));
}

/// Adds a multiple of a vector to another.
pub fn axpy<S: Scalar>(factor: S, vector: &Vec<S>, target: &mut Vec<S>)
    requires
        old(target)@.len() == vector@.len(),
    ensures
        final(target)@ == add_scaled(old(target)@, factor, vector@),
{
    let ghost before = target@;
    let mut next: usize = 0;
    while next < vector.len()
        invariant
            next <= vector@.len(),
            before.len() == vector@.len(),
            target@.len() == vector@.len(),
            forall|i: int|
                0 <= i < next ==> #[trigger] target@[i] == before[i].spec_plus(
                    factor.spec_times(vector@[i]),
                ),
            forall|i: int| next <= i < vector@.len() ==> #[trigger] target@[i] == before[i],
        decreases vector@.len() - next,
    {
        let value: S = target[next].plus(&factor.times(&vector[next]));
        target[next] = value;
        next += 1;
    }
    assert(target@ =~= add_scaled(before, factor, vector@));
}

/// Conjugates of the entries of a vector.
pub fn conjugate_vector<S: Scalar>(vector: &Vec<S>) -> (conjugates: Vec<S>)
    ensures
        conjugates@ == conjugated(vector@),
{
    let mut conjugates: Vec<S> = Vec::new();
    let mut next: usize = 0;
    while next < vector.len()
        invariant
            next <= vector@.len(),
            conjugates@.len() == next,
            forall|i: int|
                0 <= i < next ==> #[trigger] conjugates@[i] == vector@[i].spec_conjugate(),
        decreases vector@.len() - next,
    {
        conjugates.push(vector[next].conjugate());
        next += 1;
    }
    assert(conjugates@ =~= conjugated(vector@));
    conjugates
}

/// Multiples of the entries of a vector.
pub fn scale_vector<S: Scalar>(vector: &Vec<S>, factor: S) -> (multiples: Vec<S>)
    ensures
        multiples@ == scaled(vector@, factor),
{
    let mut multiples: Vec<S> = Vec::new();
    let mut next: usize = 0;
    while next < vector.len()
        invariant
            next <= vector@.len(),
            multiples@.len() == next,
            forall|i: int|
                0 <= i < next ==> #[trigger] multiples@[i] == vector@[i].spec_times(factor),
        decreases vector@.len() - next,
    {
        multiples.push(vector[next].times(&factor));
        next += 1;
    }
    assert(multiples@ =~= scaled(vector@, factor));
    multiples
}

/// Inner product, conjugate in its first argument.
pub open spec fn inner_product<S: Scalar>(left: Seq<S>, right: Seq<S>) -> S
    decreases left.len(),
{
    if left.len() == 0 {
        S::spec_zero()
    } else {
        inner_product(left.drop_last(), right).spec_plus(
            left.last().spec_conjugate().spec_times(right[left.len() - 1]),
        )
    }
}

/// Inner product, conjugate in its first argument.
pub fn dotc<S: Scalar>(left: &Vec<S>, right: &Vec<S>) -> (value: S)
    requires
        left@.len() == right@.len(),
    ensures
        value == inner_product(left@, right@),
{
    let mut value: S = S::zero();
    let mut next: usize = 0;
    assert(left@.take(0) =~= Seq::empty());
    while next < left.len()
        invariant
            next <= left@.len(),
            left@.len() == right@.len(),
            value == inner_product(left@.take(next as int), right@),
        decreases left@.len() - next,
    {
        value = value.plus(&left[next].conjugate().times(&right[next]));
        next += 1;
        assert(left@.take(next as int).drop_last() =~= left@.take(next - 1));
    }
    assert(left@.take(next as int) =~= left@);
    value
}

/// The refusal of an input vector of the wrong length.
pub open spec fn input_refused(found: nat, expected: usize) -> QmbedError {
    QmbedError::DimensionMismatch(
        Reason::Length { what: "input vector", found: found as usize, expected },
    )
}

/// Refuses an input vector of the wrong length.
pub fn check_apply_shape<S>(input: &Vec<S>, expected: usize) -> (result: Result<()>)
    ensures
        result == if input@.len() == expected {
            Ok::<(), QmbedError>(())
        } else {
            Err(input_refused(input@.len(), expected))
        },
{
    if input.len() != expected {
        return Err(
            QmbedError::DimensionMismatch(
                Reason::Length { what: "input vector", found: input.len(), expected },
            ),
        );
    }
    Ok(())
}

/// Linear maps between finite coordinate spaces.
pub trait LinearOperator: Sized {
    /// Entries of the vectors.
    type Value: Scalar;

    /// The invariant that constructors establish.
    spec fn wf(&self) -> bool;

    spec fn spec_rows(&self) -> usize;

    spec fn spec_columns(&self) -> usize;

    /// Image of a vector of the right length.
    spec fn spec_apply(&self, input: Seq<Self::Value>) -> core::result::Result<
        Seq<Self::Value>,
        QmbedError,
    >;

    /// Image of a vector of the right length under the adjoint.
    spec fn spec_apply_adjoint(&self, input: Seq<Self::Value>) -> core::result::Result<
        Seq<Self::Value>,
        QmbedError,
    >;

    /// Stored entries, where the operator stores them.
    spec fn spec_stored(&self) -> Option<Seq<(usize, usize, Self::Value)>>;

    /// Images have the right lengths, and stored entries lie inside the shape.
    proof fn images_fit(&self, input: Seq<Self::Value>)
        requires
            self.wf(),
        ensures
            match self.spec_apply(input) {
                Ok(output) => input.len() == self.spec_columns() ==> output.len()
                    == self.spec_rows(),
                Err(_) => true,
            },
            match self.spec_apply_adjoint(input) {
                Ok(output) => input.len() == self.spec_rows() ==> output.len()
                    == self.spec_columns(),
                Err(_) => true,
            },
            match self.spec_stored() {
                Some(entries) => entries_fit(entries, self.spec_rows(), self.spec_columns()),
                None => true,
            },
    ;

    /// Numbers of rows and columns.
    fn shape(&self) -> (shape: (usize, usize))
        requires
            self.wf(),
        ensures
            shape == (self.spec_rows(), self.spec_columns()),
    ;

    /// Image of a vector.
    fn apply(&self, input: &Vec<Self::Value>) -> (result: Result<Vec<Self::Value>>)
        requires
            self.wf(),
        ensures
            input@.len() == self.spec_columns() ==> vector_is(result, self.spec_apply(input@)),
            input@.len() != self.spec_columns() ==> result == Err::<Vec<Self::Value>, QmbedError>(
                input_refused(input@.len(), self.spec_columns()),
            ),
    ;

    /// Image of a vector under the adjoint.
    fn apply_adjoint(&self, input: &Vec<Self::Value>) -> (result: Result<Vec<Self::Value>>)
        requires
            self.wf(),
        ensures
            input@.len() == self.spec_rows() ==> vector_is(
                result,
                self.spec_apply_adjoint(input@),
            ),
            input@.len() != self.spec_rows() ==> result == Err::<Vec<Self::Value>, QmbedError>(
                input_refused(input@.len(), self.spec_rows()),
            ),
    ;

    /// Stored entries, where the operator stores them.
    fn stored_triplets(&self) -> (stored: Option<Vec<(usize, usize, Self::Value)>>)
        requires
            self.wf(),
        ensures
            match stored {
                Some(entries) => self.spec_stored() == Some(entries@),
                None => self.spec_stored() is None,
            },
    ;
}

/// How an operator is meant to be stored.
#[derive(Clone, Copy, Debug, PartialEq, Eq, Hash, Structural)]
pub enum MatrixFormat {
    /// Every element.
    Dense,
    /// Compressed columns.
    Csc,
    /// Compressed rows.
    Csr,
    /// Diagonals.
    Dia,
    /// No matrix, only images of vectors.
    MatrixFree,
}

/// Operator given by its entries; entries at the same place add up.
#[derive(Clone, Debug)]
pub struct Operator<S> {
    rows: usize,
    columns: usize,
    entries: Vec<(usize, usize, S)>,
    format: MatrixFormat,
}

/// Rows, columns, entries and format of an operator.
pub struct OperatorModel<S> {
    pub rows: usize,
    pub columns: usize,
    pub entries: Seq<(usize, usize, S)>,
    pub format: MatrixFormat,
}

/// An operator in another format.
pub open spec fn in_format<S>(operator: OperatorModel<S>, format: MatrixFormat) -> OperatorModel<S> {
    OperatorModel { format, ..operator }
}

/// An operator in another format, where there is one.
pub open spec fn formatted<S>(
    operator: core::result::Result<OperatorModel<S>, QmbedError>,
    format: MatrixFormat,
) -> core::result::Result<OperatorModel<S>, QmbedError> {
    match operator {
        Ok(model) => Ok(in_format(model, format)),
        Err(error) => Err(error),
    }
}

impl<S> View for Operator<S> {
    type V = OperatorModel<S>;

    closed spec fn view(&self) -> OperatorModel<S> {
        OperatorModel {
            rows: self.rows,
            columns: self.columns,
            entries: self.entries@,
            format: self.format,
        }
    }
}

/// Whether all entries lie inside a shape.
pub open spec fn entries_fit<S>(
    entries: Seq<(usize, usize, S)>,
    rows: usize,
    columns: usize,
) -> bool {
    forall|i: int|
        0 <= i < entries.len() ==> (#[trigger] entries[i]).0 < rows && entries[i].1 < columns
}

/// Image of a vector under the first entries of a matrix.
pub open spec fn entries_apply<S: Scalar>(
    entries: Seq<(usize, usize, S)>,
    input: Seq<S>,
    rows: nat,
) -> Seq<S>
    decreases entries.len(),
{
    if entries.len() == 0 {
        zeros(rows)
    } else {
        let before = entries_apply(entries.drop_last(), input, rows);
        let (row, column, value) = entries.last();
        before.update(
            row as int,
            before[row as int].spec_plus(value.spec_times(input[column as int])),
        )
    }
}

/// Image of a vector under the adjoint of the first entries of a matrix.
pub open spec fn entries_apply_adjoint<S: Scalar>(
    entries: Seq<(usize, usize, S)>,
    input: Seq<S>,
    columns: nat,
) -> Seq<S>
    decreases entries.len(),
{
    if entries.len() == 0 {
        zeros(columns)
    } else {
        let before = entries_apply_adjoint(entries.drop_last(), input, columns);
        let (row, column, value) = entries.last();
        before.update(
            column as int,
            before[column as int].spec_plus(
                value.spec_conjugate().spec_times(input[row as int]),
            ),
        )
    }
}

pub proof fn lemma_entries_apply<S: Scalar>(
    entries: Seq<(usize, usize, S)>,
    input: Seq<S>,
    rows: usize,
    columns: usize,
)
    requires
        entries_fit(entries, rows, columns),
    ensures
        entries_apply(entries, input, rows as nat).len() == rows,
        entries_apply_adjoint(entries, input, columns as nat).len() == columns,
    decreases entries.len(),
{
    if entries.len() > 0 {
        let last = entries[entries.len() - 1];
        assert(last.0 < rows && last.1 < columns);
        assert forall|i: int| 0 <= i < entries.len() - 1 implies (#[trigger] entries.drop_last()[i]).0
            < rows && entries.drop_last()[i].1 < columns by {
            assert(entries[i].0 < rows);
        }
        lemma_entries_apply(entries.drop_last(), input, rows, columns);
    }
}

impl<S: Scalar> Operator<S> {
    /// Entries inside the shape.
    pub open spec fn valid(&self) -> bool {
        entries_fit(self@.entries, self@.rows, self@.columns)
    }

    /// The operator with the given entries.
    pub fn from_triplets(
        rows: usize,
        columns: usize,
        entries: Vec<(usize, usize, S)>,
        format: MatrixFormat,
    ) -> (result: Result<Self>)
        ensures
            match result {
                Ok(operator) => {
                    &&& operator.valid()
                    &&& operator@.rows == rows
                    &&& operator@.columns == columns
                    &&& operator@.entries == entries@
                    &&& operator@.format == format
                },
                Err(error) => {
                    &&& !entries_fit(entries@, rows, columns)
                    &&& error == QmbedError::DimensionMismatch(
                        Reason::Text("an operator entry lies outside the operator shape"),
                    )
                },
            },
    {
        let mut next: usize = 0;
        while next < entries.len()
            invariant
                next <= entries@.len(),
                forall|i: int|
                    0 <= i < next ==> (#[trigger] entries@[i]).0 < rows && entries@[i].1 < columns,
            decreases entries@.len() - next,
        {
            if entries[next].0 >= rows || entries[next].1 >= columns {
                assert(!(entries@[next as int].0 < rows && entries@[next as int].1 < columns));
                return Err(
                    QmbedError::DimensionMismatch(
                        Reason::Text("an operator entry lies outside the operator shape"),
                    ),
                );
            }
            next += 1;
        }
        Ok(Operator { rows, columns, entries, format })
    }

    pub fn rows(&self) -> (rows: usize)
        ensures
            rows == self@.rows,
    {
        self.rows
    }

    pub fn columns(&self) -> (columns: usize)
        ensures
            columns == self@.columns,
    {
        self.columns
    }

    /// The entries in order.
    pub fn triplets(&self) -> (entries: &Vec<(usize, usize, S)>)
        ensures
            entries@ == self@.entries,
    {
        &self.entries
    }

    /// The same operator again.
    pub fn copied(&self) -> (operator: Self)
        ensures
            operator@ == self@,
    {
        let mut entries: Vec<(usize, usize, S)> = Vec::new();
        let mut next: usize = 0;
        while next < self.entries.len()
            invariant
                next <= self.entries@.len(),
                entries@ == self.entries@.take(next as int),
            decreases self.entries@.len() - next,
        {
            let (row, column, value) = self.entries[next];
            entries.push((row, column, value));
            next += 1;
            assert(entries@ =~= self.entries@.take(next as int));
        }
        assert(entries@ =~= self.entries@);
        Operator { rows: self.rows, columns: self.columns, entries, format: self.format }
    }

    /// How the operator is meant to be stored.
    pub fn format(&self) -> (format: MatrixFormat)
        ensures
            format == self@.format,
    {
        self.format
    }

    /// The same operator in another format.
    pub fn converted(self, format: MatrixFormat) -> (operator: Self)
        ensures
            operator@ == in_format(self@, format),
    {
        Operator { rows: self.rows, columns: self.columns, entries: self.entries, format }
    }
}

impl<S: Scalar> LinearOperator for Operator<S> {
    type Value = S;

    open spec fn wf(&self) -> bool {
        self.valid()
    }

    open spec fn spec_rows(&self) -> usize {
        self@.rows
    }

    open spec fn spec_columns(&self) -> usize {
        self@.columns
    }

    open spec fn spec_apply(&self, input: Seq<S>) -> core::result::Result<Seq<S>, QmbedError> {
        Ok(entries_apply(self@.entries, input, self@.rows as nat))
    }

    open spec fn spec_apply_adjoint(&self, input: Seq<S>) -> core::result::Result<
        Seq<S>,
        QmbedError,
    > {
        Ok(entries_apply_adjoint(self@.entries, input, self@.columns as nat))
    }

    open spec fn spec_stored(&self) -> Option<Seq<(usize, usize, S)>> {
        Some(self@.entries)
    }

    proof fn images_fit(&self, input: Seq<S>) {
        lemma_entries_apply(self@.entries, input, self@.rows, self@.columns);
    }

    fn shape(&self) -> (shape: (usize, usize)) {
        (self.rows, self.columns)
    }

    fn apply(&self, input: &Vec<S>) -> (result: Result<Vec<S>>) {
        if let Err(error) = check_apply_shape(input, self.columns) {
            return Err(error);
        }
        let mut output: Vec<S> = zero_vector(self.rows);
        let mut next: usize = 0;
        assert(self.entries@.take(0) =~= Seq::empty());
        while next < self.entries.len()
            invariant
                next <= self.entries@.len(),
                self.valid(),
                input@.len() == self.columns,
                output@.len() == self.rows,
                output@ == entries_apply(
                    self.entries@.take(next as int),
                    input@,
                    self.rows as nat,
                ),
            decreases self.entries@.len() - next,
        {
            let (row, column, value) = self.entries[next];
            proof {
                assert(self@.entries[next as int].0 < self@.rows);
                assert(self.entries@.take(next + 1).drop_last() =~= self.entries@.take(
                    next as int,
                ));
            }
            let sum: S = output[row].plus(&value.times(&input[column]));
            output[row] = sum;
            next += 1;
        }
        assert(self.entries@.take(next as int) =~= self.entries@);
        Ok(output)
    }

    fn apply_adjoint(&self, input: &Vec<S>) -> (result: Result<Vec<S>>) {
        if let Err(error) = check_apply_shape(input, self.rows) {
            return Err(error);
        }
        let mut output: Vec<S> = zero_vector(self.columns);
        let mut next: usize = 0;
        assert(self.entries@.take(0) =~= Seq::empty());
        while next < self.entries.len()
            invariant
                next <= self.entries@.len(),
                self.valid(),
                input@.len() == self.rows,
                output@.len() == self.columns,
                output@ == entries_apply_adjoint(
                    self.entries@.take(next as int),
                    input@,
                    self.columns as nat,
                ),
            decreases self.entries@.len() - next,
        {
            let (row, column, value) = self.entries[next];
            proof {
                assert(self@.entries[next as int].0 < self@.rows);
                assert(self.entries@.take(next + 1).drop_last() =~= self.entries@.take(
                    next as int,
                ));
            }
            let sum: S = output[column].plus(&value.conjugate().times(&input[row]));
            output[column] = sum;
            next += 1;
        }
        assert(self.entries@.take(next as int) =~= self.entries@);
        Ok(output)
    }

    fn stored_triplets(&self) -> (stored: Option<Vec<(usize, usize, S)>>) {
        let copy: Operator<S> = self.copied();
        Some(copy.entries)
    }
}

/// Entries of one column that are large enough to be stored.
pub open spec fn column_entries<S: Scalar>(column: usize, output: Seq<S>, count: nat) -> Seq<
    (usize, usize, S),
>
    decreases count,
{
    if count == 0 {
        Seq::empty()
    } else {
        let before = column_entries(column, output, (count - 1) as nat);
        let value = output[count - 1];
        if value.spec_is_negligible() {
            before
        } else {
            before.push(((count - 1) as usize, column, value))
        }
    }
}

/// Entries of the first columns, found by applying the operator to unit vectors.
pub open spec fn probed_entries<O: LinearOperator>(operator: O, count: nat) -> core::result::Result<
    Seq<(usize, usize, O::Value)>,
    QmbedError,
>
    decreases count,
{
    if count == 0 {
        Ok(Seq::empty())
    } else {
        match probed_entries(operator, (count - 1) as nat) {
            Err(error) => Err(error),
            Ok(before) => match operator.spec_apply(
                unit(operator.spec_columns() as nat, (count - 1) as nat),
            ) {
                Err(error) => Err(error),
                Ok(output) => Ok(
                    before + column_entries(
                        (count - 1) as usize,
                        output,
                        operator.spec_rows() as nat,
                    ),
                ),
            },
        }
    }
}

/// Entries of an operator: the stored ones, or those found column by column.
pub open spec fn entries_of<O: LinearOperator>(operator: O) -> core::result::Result<
    Seq<(usize, usize, O::Value)>,
    QmbedError,
> {
    match operator.spec_stored() {
        Some(entries) => Ok(entries),
        None => probed_entries(operator, operator.spec_columns() as nat),
    }
}

proof fn lemma_probe_fails<O: LinearOperator>(operator: O, count: nat, later: nat)
    requires
        count <= later,
        probed_entries(operator, count) is Err,
    ensures
        probed_entries(operator, later) == probed_entries(operator, count),
    decreases later,
{
    if count < later {
        lemma_probe_fails(operator, count, (later - 1) as nat);
    }
}

pub proof fn lemma_column_entries<S: Scalar>(
    column: usize,
    output: Seq<S>,
    count: nat,
    rows: usize,
    columns: usize,
)
    requires
        count <= rows,
        column < columns,
    ensures
        entries_fit(column_entries(column, output, count), rows, columns),
    decreases count,
{
    if count > 0 {
        lemma_column_entries(column, output, (count - 1) as nat, rows, columns);
    }
}

proof fn lemma_probed_entries<O: LinearOperator>(operator: O, count: nat)
    requires
        count <= operator.spec_columns(),
    ensures
        match probed_entries(operator, count) {
            Ok(entries) => entries_fit(entries, operator.spec_rows(), operator.spec_columns()),
            Err(_) => true,
        },
    decreases count,
{
    if count > 0 {
        lemma_probed_entries(operator, (count - 1) as nat);
        let place = (count - 1) as usize;
        if let Ok(output) = operator.spec_apply(
            unit(operator.spec_columns() as nat, (count - 1) as nat),
        ) {
            lemma_column_entries(
                place,
                output,
                operator.spec_rows() as nat,
                operator.spec_rows(),
                operator.spec_columns(),
            );
        }
    }
}

/// The entries of an operator lie inside its shape.
pub proof fn lemma_entries_of<O: LinearOperator>(operator: O)
    requires
        operator.wf(),
    ensures
        match entries_of(operator) {
            Ok(entries) => entries_fit(entries, operator.spec_rows(), operator.spec_columns()),
            Err(_) => true,
        },
{
    operator.images_fit(Seq::empty());
    lemma_probed_entries(operator, operator.spec_columns() as nat);
}

/// Entries of an operator: the stored ones, or those found column by column.
pub fn streamed_triplets<O: LinearOperator>(operator: &O) -> (result: Result<
    Vec<(usize, usize, O::Value)>,
>)
    requires
        operator.wf(),
    ensures
        vector_is(result, entries_of(*operator)),
{
    if let Some(entries) = operator.stored_triplets() {
        return Ok(entries);
    }
    let (rows, columns) = operator.shape();
    let mut entries: Vec<(usize, usize, O::Value)> = Vec::new();
    let mut column: usize = 0;
    while column < columns
        invariant
            column <= columns,
            operator.wf(),
            rows == operator.spec_rows(),
            columns == operator.spec_columns(),
            operator.spec_stored() is None,
            probed_entries(*operator, column as nat) == Ok::<
                Seq<(usize, usize, O::Value)>,
                QmbedError,
            >(entries@),
        decreases columns - column,
    {
        let input: Vec<O::Value> = unit_vector(columns, column);
        let ghost before = entries@;
        let output: Vec<O::Value> = match operator.apply(&input) {
            Ok(output) => output,
            Err(error) => {
                proof {
                    lemma_probe_fails(*operator, (column + 1) as nat, columns as nat);
                }
                return Err(error);
            },
        };
        proof {
            operator.images_fit(input@);
        }
        let mut row: usize = 0;
        assert(before + column_entries::<O::Value>(column, output@, 0) =~= before);
        while row < rows
            invariant
                row <= rows,
                output@.len() == rows,
                entries@ == before + column_entries(column, output@, row as nat),
            decreases rows - row,
        {
            let value: O::Value = output[row];
            if !value.is_negligible() {
                entries.push((row, column, value));
                assert(entries@ =~= before + column_entries(column, output@, (row + 1) as nat));
            }
            row += 1;
        }
        column += 1;
    }
    Ok(entries)
}

/// Column of `P† A P`.
pub open spec fn compressed_column<S: Scalar>(
    operator: OperatorModel<S>,
    projector: OperatorModel<S>,
    column: nat,
) -> Seq<S> {
    let lifted = entries_apply(
        projector.entries,
        unit(projector.columns as nat, column),
        projector.rows as nat,
    );
    let image = entries_apply(operator.entries, lifted, operator.rows as nat);
    entries_apply_adjoint(projector.entries, image, projector.columns as nat)
}

/// Entries of the first columns of `P† A P`.
pub open spec fn compressed_entries<S: Scalar>(
    operator: OperatorModel<S>,
    projector: OperatorModel<S>,
    count: nat,
) -> Seq<(usize, usize, S)>
    decreases count,
{
    if count == 0 {
        Seq::empty()
    } else {
        compressed_entries(operator, projector, (count - 1) as nat) + column_entries(
            (count - 1) as usize,
            compressed_column(operator, projector, (count - 1) as nat),
            projector.columns as nat,
        )
    }
}

/// `P† A P`, or what keeps it from existing.
pub open spec fn compressed<S: Scalar>(
    operator: OperatorModel<S>,
    projector: OperatorModel<S>,
) -> core::result::Result<OperatorModel<S>, QmbedError> {
    if operator.rows != operator.columns || projector.rows != operator.rows {
        Err(QmbedError::DimensionMismatch(Reason::Text("projector rows must match the operator dimension")))
    } else {
        Ok(
            OperatorModel {
                rows: projector.columns,
                columns: projector.columns,
                entries: compressed_entries(operator, projector, projector.columns as nat),
                format: operator.format,
            },
        )
    }
}

impl<S: Scalar> Operator<S> {
    /// `P† A P` for a rectangular map `P`.
    pub fn projected_by(&self, projector: &Operator<S>) -> (result: Result<Operator<S>>)
        requires
            self.valid(),
            projector.valid(),
        ensures
            match compressed(self@, projector@) {
                Ok(model) => result matches Ok(operator) && operator.valid() && operator@ == model,
                Err(error) => result matches Err(found) && found == error,
            },
    {
        if self.rows != self.columns || projector.rows != self.rows {
            return Err(
                QmbedError::DimensionMismatch(Reason::Text("projector rows must match the operator dimension")),
            );
        }
        let width: usize = projector.columns;
        let mut entries: Vec<(usize, usize, S)> = Vec::new();
        let mut column: usize = 0;
        while column < width
            invariant
                column <= width,
                width == projector@.columns,
                self.valid(),
                projector.valid(),
                self@.rows == self@.columns,
                projector@.rows == self@.rows,
                entries_fit(entries@, width, width),
                entries@ == compressed_entries(self@, projector@, column as nat),
            decreases width - column,
        {
            let input: Vec<S> = unit_vector(width, column);
            let ghost before = entries@;
            proof {
                projector.images_fit(input@);
            }
            let image: Result<Vec<S>> = match projector.apply(&input) {
                Ok(lifted) => {
                    proof {
                        self.images_fit(lifted@);
                    }
                    match self.apply(&lifted) {
                        Ok(image) => {
                            proof {
                                projector.images_fit(image@);
                            }
                            projector.apply_adjoint(&image)
                        },
                        Err(error) => Err(error),
                    }
                },
                Err(error) => Err(error),
            };
            let output: Vec<S> = match image {
                Ok(output) => output,
                Err(error) => {
                    return Err(error);
                },
            };
            let mut row: usize = 0;
            assert(before + column_entries::<S>(column, output@, 0) =~= before);
            while row < width
                invariant
                    row <= width,
                    column < width,
                    output@.len() == width,
                    entries_fit(entries@, width, width),
                    entries@ == before + column_entries(column, output@, row as nat),
                decreases width - row,
            {
                let value: S = output[row];
                if !value.is_negligible() {
                    entries.push((row, column, value));
                    assert(entries@ =~= before + column_entries(
                        column,
                        output@,
                        (row + 1) as nat,
                    ));
                }
                row += 1;
            }
            column += 1;
        }
        Ok(Operator { rows: width, columns: width, entries, format: self.format })
    }
}

/// Sum of the first entries at a place of a matrix.
pub open spec fn element<S: Scalar>(
    entries: Seq<(usize, usize, S)>,
    row: usize,
    column: usize,
    count: nat,
) -> S
    decreases count,
{
    if count == 0 {
        S::spec_zero()
    } else {
        let before = element(entries, row, column, (count - 1) as nat);
        if entries[count - 1].0 == row && entries[count - 1].1 == column {
            before.spec_plus(entries[count - 1].2)
        } else {
            before
        }
    }
}

/// Whether the element at the place of an entry is the conjugate of its mirror image.
pub open spec fn entry_is_mirrored<S: Scalar>(
    entries: Seq<(usize, usize, S)>,
    place: int,
    tolerance: S::Size,
) -> bool {
    let (row, column, _value) = entries[place];
    S::spec_within(
        element(entries, row, column, entries.len()).spec_distance(
            element(entries, column, row, entries.len()).spec_conjugate(),
        ),
        tolerance,
    )
}

/// Whether a matrix is its own adjoint within a tolerance.
pub open spec fn hermitian<S: Scalar>(operator: OperatorModel<S>, tolerance: S::Size) -> bool {
    &&& operator.rows == operator.columns
    &&& forall|i: int|
        0 <= i < operator.entries.len() ==> #[trigger] entry_is_mirrored(
            operator.entries,
            i,
            tolerance,
        )
}

impl<S: Scalar> Operator<S> {
    /// Sum of the entries at a place.
    pub fn get(&self, row: usize, column: usize) -> (value: S)
        ensures
            value == element(self@.entries, row, column, self@.entries.len()),
    {
        let mut value: S = S::zero();
        let mut next: usize = 0;
        while next < self.entries.len()
            invariant
                next <= self.entries@.len(),
                value == element(self.entries@, row, column, next as nat),
            decreases self.entries@.len() - next,
        {
            if self.entries[next].0 == row && self.entries[next].1 == column {
                value = value.plus(&self.entries[next].2);
            }
            next += 1;
        }
        value
    }

    /// Whether the operator is its own adjoint within a tolerance.
    pub fn is_hermitian(&self, tolerance: S::Size) -> (answer: bool)
        ensures
            answer == hermitian(self@, tolerance),
    {
        if self.rows != self.columns {
            return false;
        }
        let mut next: usize = 0;
        while next < self.entries.len()
            invariant
                next <= self.entries@.len(),
                self@.rows == self@.columns,
                forall|i: int|
                    0 <= i < next ==> #[trigger] entry_is_mirrored(self@.entries, i, tolerance),
            decreases self.entries@.len() - next,
        {
            let (row, column, _value) = self.entries[next];
            let mirror: S = self.get(column, row).conjugate();
            if !S::within(self.get(row, column).distance(&mirror), tolerance) {
                assert(!entry_is_mirrored(self@.entries, next as int, tolerance));
                return false;
            }
            next += 1;
        }
        true
    }
}

} // verus!

//! Finite operator families owned at run time: a fixed part and named components.

use vstd::prelude::*;

use crate::error::{QmbedError, Reason, Result};
use crate::family;
use crate::family::{ComponentModel, QuantumComponent, QuantumOperator};
use crate::linear;
use crate::linear::{
    add_vector, conjugate_vector, LinearOperator, MatrixFormat, Operator, OperatorModel, Scalar,
};

verus! {

/// Algebraic view used when an operator is applied.
#[derive(Clone, Copy, Debug, PartialEq, Eq, Structural)]
pub enum OperatorAction {
    Normal,
    Transpose,
    Conjugate,
    Adjoint,
}

impl Default for OperatorAction {
    fn default() -> (action: Self)
        ensures
            action == OperatorAction::Normal,
    {
        OperatorAction::Normal
    }
}

/// Image of a vector under an algebraic view of an operator.
pub open spec fn action_image<O: LinearOperator>(
    operator: O,
    action: OperatorAction,
    input: Seq<O::Value>,
) -> core::result::Result<Seq<O::Value>, QmbedError> {
    match action {
        OperatorAction::Normal => operator.spec_apply(input),
        OperatorAction::Adjoint => operator.spec_apply_adjoint(input),
        OperatorAction::Conjugate => match operator.spec_apply(linear::conjugated(input)) {
            Ok(output) => Ok(linear::conjugated(output)),
            Err(error) => Err(error),
        },
        OperatorAction::Transpose => match operator.spec_apply_adjoint(linear::conjugated(input)) {
            Ok(output) => Ok(linear::conjugated(output)),
            Err(error) => Err(error),
        },
    }
}

/// Length of the vectors that an algebraic view of an operator takes.
pub open spec fn action_columns<O: LinearOperator>(operator: O, action: OperatorAction) -> usize {
    match action {
        OperatorAction::Normal | OperatorAction::Conjugate => operator.spec_columns(),
        OperatorAction::Transpose | OperatorAction::Adjoint => operator.spec_rows(),
    }
}

/// Images of the first vectors of a batch.
pub open spec fn batch_images<O: LinearOperator>(
    operator: O,
    inputs: Seq<Seq<O::Value>>,
    action: OperatorAction,
    count: nat,
) -> core::result::Result<Seq<Seq<O::Value>>, QmbedError>
    decreases count,
{
    if count == 0 {
        Ok(Seq::empty())
    } else {
        match batch_images(operator, inputs, action, (count - 1) as nat) {
            Err(error) => Err(error),
            Ok(before) => {
                let input = inputs[count - 1];
                if input.len() != action_columns(operator, action) {
                    Err(
                        QmbedError::DimensionMismatch(Reason::Length {
                            what: "operator action input",
                            found: input.len() as usize,
                            expected: action_columns(operator, action),
                        }),
                    )
                } else {
                    match action_image(operator, action, input) {
                        Ok(output) => Ok(before.push(output)),
                        Err(error) => Err(error),
                    }
                }
            },
        }
    }
}

/// Views of the vectors of a batch.
pub open spec fn columns_of<S>(vectors: Seq<Vec<S>>) -> Seq<Seq<S>> {
    Seq::new(vectors.len(), |k: int| vectors[k]@)
}

/// Whether a returned batch is the stated one.
pub open spec fn batch_is<S>(
    result: Result<Vec<Vec<S>>>,
    stated: core::result::Result<Seq<Seq<S>>, QmbedError>,
) -> bool {
    match result {
        Ok(vectors) => stated == Ok::<Seq<Seq<S>>, QmbedError>(columns_of(vectors@)),
        Err(error) => stated == Err::<Seq<Seq<S>>, QmbedError>(error),
    }
}

proof fn lemma_batch_fails<O: LinearOperator>(
    operator: O,
    inputs: Seq<Seq<O::Value>>,
    action: OperatorAction,
    count: nat,
    later: nat,
)
    requires
        count <= later,
        batch_images(operator, inputs, action, count) is Err,
    ensures
        batch_images(operator, inputs, action, later) == batch_images(
            operator,
            inputs,
            action,
            count,
        ),
    decreases later,
{
    if count < later {
        lemma_batch_fails(operator, inputs, action, count, (later - 1) as nat);
    }
}

/// Image of a vector under an algebraic view of an operator.
fn apply_action<O: LinearOperator>(
    operator: &O,
    action: OperatorAction,
    input: &Vec<O::Value>,
) -> (result: Result<Vec<O::Value>>)
    requires
        operator.wf(),
        input@.len() == action_columns(*operator, action),
    ensures
        linear::vector_is(result, action_image(*operator, action, input@)),
{
    match action {
        OperatorAction::Normal => operator.apply(input),
        OperatorAction::Adjoint => operator.apply_adjoint(input),
        OperatorAction::Conjugate => match operator.apply(&conjugate_vector(input)) {
            Ok(output) => Ok(conjugate_vector(&output)),
            Err(error) => Err(error),
        },
        OperatorAction::Transpose => match operator.apply_adjoint(&conjugate_vector(input)) {
            Ok(output) => Ok(conjugate_vector(&output)),
            Err(error) => Err(error),
        },
    }
}

/// Images of the vectors of a batch under an algebraic view of an operator.
pub fn apply_operator_batch<O: LinearOperator>(
    operator: &O,
    inputs: &Vec<Vec<O::Value>>,
    action: OperatorAction,
) -> (result: Result<Vec<Vec<O::Value>>>)
    requires
        operator.wf(),
    ensures
        batch_is(result, batch_images(*operator, columns_of(inputs@), action, inputs@.len())),
{
    let ghost columns = columns_of(inputs@);
    let (rows, width) = operator.shape();
    let expected: usize = match action {
        OperatorAction::Normal | OperatorAction::Conjugate => width,
        OperatorAction::Transpose | OperatorAction::Adjoint => rows,
    };
    let mut outputs: Vec<Vec<O::Value>> = Vec::new();
    let mut next: usize = 0;
    assert(columns_of(outputs@) =~= Seq::empty());
    while next < inputs.len()
        invariant
            next <= inputs@.len(),
            operator.wf(),
            expected == action_columns(*operator, action),
            columns == columns_of(inputs@),
            batch_images(*operator, columns, action, next as nat) == Ok::<
                Seq<Seq<O::Value>>,
                QmbedError,
            >(columns_of(outputs@)),
        decreases inputs@.len() - next,
    {
        assert(columns[next as int] == inputs@[next as int]@);
        if inputs[next].len() != expected {
            proof {
                lemma_batch_fails(*operator, columns, action, (next + 1) as nat, inputs@.len());
            }
            return Err(
                QmbedError::DimensionMismatch(Reason::Length {
                    what: "operator action input",
                    found: inputs[next].len(),
                    expected,
                }),
            );
        }
        match apply_action(operator, action, &inputs[next]) {
            Ok(output) => {
                let ghost before = columns_of(outputs@);
                outputs.push(output);
                assert(columns_of(outputs@) =~= before.push(output@));
            },
            Err(error) => {
                proof {
                    lemma_batch_fails(
                        *operator,
                        columns,
                        action,
                        (next + 1) as nat,
                        inputs@.len(),
                    );
                }
                return Err(error);
            },
        }
        next += 1;
    }
    Ok(outputs)
}

/// Fixed part and named components of an operator family.
#[verifier::ext_equal]
pub struct FamilyModel<S> {
    pub fixed: OperatorModel<S>,
    pub components: Seq<ComponentModel<S>>,
}

/// What is wrong with a family with named components, if anything.
pub open spec fn model_error<S: Scalar>(
    fixed: OperatorModel<S>,
    components: Seq<ComponentModel<S>>,
) -> Option<QmbedError> {
    if fixed.rows != fixed.columns {
        Some(QmbedError::DimensionMismatch(Reason::Text("a persistent operator model must be square")))
    } else {
        match family::family_error(components) {
            Some(error) => Some(error),
            None => if components[0].operator.rows != fixed.rows
                || components[0].operator.columns != fixed.columns {
                Some(
                    QmbedError::DimensionMismatch(
                        Reason::Text("fixed and parameterized operators must have equal shapes"),
                    ),
                )
            } else {
                None
            },
        }
    }
}

/// A fixed operator with named components of the same shape.
#[derive(Debug)]
pub struct PackedOperatorModel<S> {
    static_part: Operator<S>,
    parameterized_part: Option<QuantumOperator<S>>,
}

impl<S> View for PackedOperatorModel<S> {
    type V = FamilyModel<S>;

    closed spec fn view(&self) -> FamilyModel<S> {
        FamilyModel {
            fixed: self.static_part@,
            components: match self.parameterized_part {
                Some(family) => family@,
                None => Seq::empty(),
            },
        }
    }
}

impl<S: Scalar> PackedOperatorModel<S> {
    /// A fixed part, and components of its shape.
    pub closed spec fn valid(&self) -> bool {
        &&& self.static_part.valid()
        &&& match self.parameterized_part {
            Some(family) => {
                &&& family.valid()
                &&& family@[0].operator.rows == self.static_part@.rows
                &&& family@[0].operator.columns == self.static_part@.columns
            },
            None => true,
        }
    }

    /// What a valid family promises.
    pub proof fn lemma_valid(&self)
        requires
            self.valid(),
        ensures
            linear::entries_fit(self@.fixed.entries, self@.fixed.rows, self@.fixed.columns),
            self@.components.len() > 0 ==> family::family_error(self@.components) is None,
            self@.components.len() > 0 ==> family::same_shapes(self@.components),
            self@.components.len() > 0 ==> self@.components[0].operator.rows == self@.fixed.rows,
            self@.components.len() > 0 ==> self@.components[0].operator.columns
                == self@.fixed.columns,
    {
        if let Some(family) = self.parameterized_part {
            family.lemma_valid();
        }
    }

    /// A fixed square operator.
    pub fn new(static_part: Operator<S>) -> (result: Result<Self>)
        requires
            static_part.valid(),
        ensures
            match result {
                Ok(model) => {
                    &&& static_part@.rows == static_part@.columns
                    &&& model.valid()
                    &&& model@ == (FamilyModel { fixed: static_part@, components: Seq::empty() })
                },
                Err(error) => {
                    &&& static_part@.rows != static_part@.columns
                    &&& error == QmbedError::DimensionMismatch(
                        Reason::Text("a persistent operator model must be square"),
                    )
                },
            },
    {
        let (rows, columns) = static_part.shape();
        if rows != columns {
            return Err(
                QmbedError::DimensionMismatch(Reason::Text("a persistent operator model must be square")),
            );
        }
        Ok(PackedOperatorModel { static_part, parameterized_part: None })
    }

    /// A fixed square operator with named components.
    pub fn with_components(
        static_part: Operator<S>,
        components: Vec<QuantumComponent<S>>,
    ) -> (result: Result<Self>)
        requires
            static_part.valid(),
            forall|k: int| 0 <= k < components@.len() ==> (#[trigger] components@[k]).valid(),
        ensures
            match result {
                Ok(model) => {
                    &&& model_error(static_part@, family::models(components@)) is None
                    &&& model.valid()
                    &&& model@ == (FamilyModel {
                        fixed: static_part@,
                        components: family::models(components@),
                    })
                },
                Err(error) => model_error(static_part@, family::models(components@)) == Some(
                    error,
                ),
            },
    {
        let (rows, columns) = static_part.shape();
        if rows != columns {
            return Err(
                QmbedError::DimensionMismatch(Reason::Text("a persistent operator model must be square")),
            );
        }
        let parameterized_part: QuantumOperator<S> = match QuantumOperator::new(components) {
            Ok(family) => family,
            Err(error) => {
                return Err(error);
            },
        };
        let shape: (usize, usize) = parameterized_part.shape();
        if shape.0 != rows || shape.1 != columns {
            return Err(
                QmbedError::DimensionMismatch(
                    Reason::Text("fixed and parameterized operators must have equal shapes"),
                ),
            );
        }
        Ok(PackedOperatorModel { static_part, parameterized_part: Some(parameterized_part) })
    }

    /// Named components without a fixed part.
    pub fn parameterized(components: Vec<QuantumComponent<S>>, format: MatrixFormat) -> (result:
        Result<Self>)
        requires
            forall|k: int| 0 <= k < components@.len() ==> (#[trigger] components@[k]).valid(),
        ensures
            match result {
                Ok(model) => {
                    &&& family::family_error(family::models(components@)) is None
                    &&& model.valid()
                    &&& model@ == (FamilyModel {
                        fixed: OperatorModel {
                            rows: components@[0]@.operator.rows,
                            columns: components@[0]@.operator.columns,
                            entries: Seq::empty(),
                            format,
                        },
                        components: family::models(components@),
                    })
                },
                Err(error) => family::family_error(family::models(components@)) == Some(error),
            },
    {
        let ghost list = family::models(components@);
        let parameterized_part: QuantumOperator<S> = match QuantumOperator::new(components) {
            Ok(family) => family,
            Err(error) => {
                return Err(error);
            },
        };
        let shape: (usize, usize) = parameterized_part.shape();
        assert(list[0] == components@[0]@);
        match Operator::from_triplets(shape.0, shape.1, Vec::new(), format) {
            Ok(static_part) => Ok(
                PackedOperatorModel { static_part, parameterized_part: Some(parameterized_part) },
            ),
            Err(error) => Err(error),
        }
    }

    /// Dimension of the space.
    pub fn dimension(&self) -> (dimension: usize)
        requires
            self.valid(),
        ensures
            dimension == self@.fixed.rows,
    {
        self.static_part.shape().0
    }

    /// The fixed part.
    pub fn static_part(&self) -> (operator: &Operator<S>)
        ensures
            operator@ == self@.fixed,
    {
        &self.static_part
    }

    /// The named components, if there are any.
    pub fn parameterized_part(&self) -> (family: Option<&QuantumOperator<S>>)
        requires
            self.valid(),
        ensures
            match family {
                Some(family) => family.valid() && family@ == self@.components
                    && self@.components.len() > 0,
                None => self@.components.len() == 0,
            },
    {
        match &self.parameterized_part {
            Some(family) => {
                proof {
                    family.lemma_valid();
                }
                Some(family)
            },
            None => None,
        }
    }

    /// Number of named components.
    pub fn component_count(&self) -> (count: usize)
        requires
            self.valid(),
        ensures
            count == self@.components.len(),
    {
        match &self.parameterized_part {
            Some(family) => family.components().len(),
            None => 0,
        }
    }

    /// Names of the components in their stable order.
    pub fn component_names(&self) -> (names: Vec<String>)
        ensures
            names@.len() == self@.components.len(),
            forall|k: int|
                0 <= k < names@.len() ==> (#[trigger] names@[k])@ == self@.components[k].name,
    {
        let mut names: Vec<String> = Vec::new();
        if let Some(family) = &self.parameterized_part {
            let components: &Vec<QuantumComponent<S>> = family.components();
            let mut next: usize = 0;
            while next < components.len()
                invariant
                    next <= components@.len(),
                    names@.len() == next,
                    forall|k: int|
                        0 <= k < next ==> (#[trigger] names@[k])@ == components@[k]@.name,
                decreases components@.len() - next,
            {
                names.push(components[next].name().clone());
                next += 1;
            }
            proof {
                assert forall|k: int| 0 <= k < names@.len() implies (#[trigger] names@[k])@
                    == self@.components[k].name by {
                    assert(family::models(components@)[k] == components@[k]@);
                }
            }
        }
        names
    }

    /// The component with a name, without the fixed part.
    pub fn component_operator(&self, name: &String, format: MatrixFormat) -> (result: Result<
        Operator<S>,
    >)
        ensures
            match result {
                Ok(operator) => {
                    let place = family::position(
                        family::names_of(self@.components),
                        name@,
                        self@.components.len(),
                    );
                    place is Some && operator@ == linear::in_format(
                        self@.components[place->0 as int].operator,
                        format,
                    )
                },
                Err(error) => {
                    &&& family::position(
                        family::names_of(self@.components),
                        name@,
                        self@.components.len(),
                    ) is None
                    &&& error == QmbedError::InvalidOptions(Reason::UnknownComponent)
                },
            },
    {
        match &self.parameterized_part {
            Some(family) => match family.component(name) {
                Ok(operator) => Ok(operator.copied().converted(format)),
                Err(error) => Err(error),
            },
            None => Err(QmbedError::InvalidOptions(Reason::UnknownComponent)),
        }
    }
}

/// Direct sum of two lists of entries of one shape.
pub open spec fn summed<S>(left: OperatorModel<S>, right: Seq<(usize, usize, S)>) -> OperatorModel<
    S,
> {
    OperatorModel { entries: left.entries + right, ..left }
}

/// The operator of a family under a choice of parameters.
pub open spec fn evaluated<S: Scalar>(
    model: FamilyModel<S>,
    names: Seq<Seq<char>>,
    values: Seq<S>,
) -> core::result::Result<OperatorModel<S>, QmbedError> {
    if model.components.len() == 0 {
        if names.len() == 0 {
            Ok(model.fixed)
        } else {
            Err(QmbedError::InvalidOptions(Reason::UnknownParameter { index: 0 }))
        }
    } else {
        match family::coefficients_for(model.components, names, values) {
            Ok(coefficients) => Ok(
                summed(
                    model.fixed,
                    family::combined_entries(
                        model.components,
                        coefficients,
                        model.components.len(),
                    ),
                ),
            ),
            Err(error) => Err(error),
        }
    }
}

/// Image of a vector under a family with the given coefficients.
pub open spec fn family_image<S: Scalar>(
    model: FamilyModel<S>,
    coefficients: Seq<S>,
    input: Seq<S>,
) -> core::result::Result<Seq<S>, QmbedError> {
    let fixed = linear::entries_apply(model.fixed.entries, input, model.fixed.rows as nat);
    if input.len() != model.fixed.columns {
        Err(
            QmbedError::DimensionMismatch(Reason::Length {
                what: "operator input",
                found: input.len() as usize,
                expected: model.fixed.columns,
            }),
        )
    } else if model.components.len() == 0 {
        if coefficients.len() == 0 {
            Ok(fixed)
        } else {
            Err(
                QmbedError::DimensionMismatch(
                    Reason::Text("a fixed operator model accepts no component coefficients"),
                ),
            )
        }
    } else if coefficients.len() != model.components.len() {
        Err(
            QmbedError::DimensionMismatch(Reason::Length {
                what: "component coefficients",
                found: coefficients.len() as usize,
                expected: model.components.len() as usize,
            }),
        )
    } else {
        Ok(
            linear::vector_sum(
                fixed,
                family::combined_apply(
                    model.components,
                    coefficients,
                    input,
                    model.components.len(),
                ),
            ),
        )
    }
}

/// Coefficients of a family under a choice of parameters.
pub open spec fn family_coefficients<S: Scalar>(
    model: FamilyModel<S>,
    names: Seq<Seq<char>>,
    values: Seq<S>,
) -> core::result::Result<Seq<S>, QmbedError> {
    if model.components.len() == 0 {
        if names.len() == 0 {
            Ok(Seq::empty())
        } else {
            Err(QmbedError::InvalidOptions(Reason::UnknownParameter { index: 0 }))
        }
    } else {
        family::coefficients_for(model.components, names, values)
    }
}

/// Image of a vector under a family with parameters.
pub open spec fn parameter_image<S: Scalar>(
    model: FamilyModel<S>,
    names: Seq<Seq<char>>,
    values: Seq<S>,
    input: Seq<S>,
) -> core::result::Result<Seq<S>, QmbedError> {
    match family_coefficients(model, names, values) {
        Ok(coefficients) => family_image(model, coefficients, input),
        Err(error) => Err(error),
    }
}

/// Whether all scalars are numbers.
pub open spec fn all_finite<S: Scalar>(values: Seq<S>) -> bool {
    forall|k: int| 0 <= k < values.len() ==> (#[trigger] values[k]).spec_is_finite()
}

pub fn are_finite<S: Scalar>(values: &Vec<S>) -> (answer: bool)
    ensures
        answer == all_finite(values@),
{
    let mut next: usize = 0;
    while next < values.len()
        invariant
            next <= values@.len(),
            forall|k: int| 0 <= k < next ==> (#[trigger] values@[k]).spec_is_finite(),
        decreases values@.len() - next,
    {
        if !values[next].is_finite() {
            assert(!values@[next as int].spec_is_finite());
            return false;
        }
        next += 1;
    }
    true
}

/// The operator of a family with parameters, where it is Hermitian within a tolerance.
pub open spec fn hermitian_member<S: Scalar>(
    model: FamilyModel<S>,
    names: Seq<Seq<char>>,
    values: Seq<S>,
    tolerance: S::Size,
) -> core::result::Result<OperatorModel<S>, QmbedError> {
    match evaluated(model, names, values) {
        Ok(member) => if linear::hermitian(member, tolerance) {
            Ok(member)
        } else {
            Err(QmbedError::NonHermitian)
        },
        Err(error) => Err(error),
    }
}

impl<S: Scalar> PackedOperatorModel<S> {
    /// The operator that an eigensolver or a unitary evolution starts from; it has to be
    /// Hermitian within a tolerance.
    pub fn hermitian_operator(
        &self,
        parameters: &Vec<(String, S)>,
        format: MatrixFormat,
        tolerance: S::Size,
    ) -> (result: Result<Operator<S>>)
        requires
            self.valid(),
        ensures
            match linear::formatted(
                hermitian_member(
                    self@,
                    family::parameter_names(parameters@),
                    family::parameter_values(parameters@),
                    tolerance,
                ),
                format,
            ) {
                Ok(model) => result matches Ok(operator) && operator.valid() && operator@ == model,
                Err(error) => result matches Err(found) && found == error,
            },
    {
        match self.materialize(parameters, format) {
            Ok(operator) => if operator.is_hermitian(tolerance) {
                Ok(operator)
            } else {
                Err(QmbedError::NonHermitian)
            },
            Err(error) => Err(error),
        }
    }

    /// The operator of the family under a choice of parameters.
    pub fn materialize(&self, parameters: &Vec<(String, S)>, format: MatrixFormat) -> (result: Result<
        Operator<S>,
    >)
        requires
            self.valid(),
        ensures
            match linear::formatted(
                evaluated(
                    self@,
                    family::parameter_names(parameters@),
                    family::parameter_values(parameters@),
                ),
                format,
            ) {
                Ok(model) => result matches Ok(operator) && operator.valid() && operator@ == model,
                Err(error) => result matches Err(found) && found == error,
            },
    {
        let fixed: Operator<S> = self.static_part.copied().converted(format);
        match &self.parameterized_part {
            Some(family) => {
                proof {
                    family.lemma_valid();
                }
                match family.evaluate(parameters, format) {
                    Ok(variable) => {
                        let (rows, columns) = fixed.shape();
                        let mut entries: Vec<(usize, usize, S)> = copy_entries(fixed.triplets());
                        let mut added: Vec<(usize, usize, S)> = copy_entries(variable.triplets());
                        entries.append(&mut added);
                        assert forall|i: int| 0 <= i < entries@.len() implies (#[trigger] entries@[i]).0
                            < rows && entries@[i].1 < columns by {
                            if i < fixed@.entries.len() {
                                assert(fixed@.entries[i].0 < rows);
                            } else {
                                assert(variable@.entries[i - fixed@.entries.len()].0 < rows);
                            }
                        }
                        Operator::from_triplets(rows, columns, entries, format)
                    },
                    Err(error) => Err(error),
                }
            },
            None => if parameters.len() == 0 {
                Ok(fixed)
            } else {
                Err(QmbedError::InvalidOptions(Reason::UnknownParameter { index: 0 }))
            },
        }
    }

    /// Image of a vector under the family with coefficients in component order.
    pub fn apply_coefficients(&self, coefficients: &Vec<S>, input: &Vec<S>) -> (result: Result<
        Vec<S>,
    >)
        requires
            self.valid(),
        ensures
            linear::vector_is(result, family_image(self@, coefficients@, input@)),
    {
        let (_rows, columns) = self.static_part.shape();
        if input.len() != columns {
            return Err(
                QmbedError::DimensionMismatch(Reason::Length {
                    what: "operator input",
                    found: input.len(),
                    expected: columns,
                }),
            );
        }
        proof {
            self.static_part.images_fit(input@);
        }
        let mut output: Vec<S> = match self.static_part.apply(input) {
            Ok(output) => output,
            Err(error) => {
                return Err(error);
            },
        };
        match &self.parameterized_part {
            Some(family) => {
                proof {
                    family.lemma_valid();
                    family::lemma_combined_apply(
                        family@,
                        coefficients@,
                        input@,
                        family@.len(),
                    );
                }
                match family.apply_coefficients(coefficients, input) {
                    Ok(contribution) => {
                        add_vector(&mut output, &contribution);
                        Ok(output)
                    },
                    Err(error) => Err(error),
                }
            },
            None => if coefficients.len() == 0 {
                Ok(output)
            } else {
                Err(
                    QmbedError::DimensionMismatch(
                        Reason::Text("a fixed operator model accepts no component coefficients"),
                    ),
                )
            },
        }
    }

    /// Image of a vector under the family with parameters.
    pub fn apply(&self, parameters: &Vec<(String, S)>, input: &Vec<S>) -> (result: Result<Vec<S>>)
        requires
            self.valid(),
        ensures
            linear::vector_is(
                result,
                parameter_image(
                    self@,
                    family::parameter_names(parameters@),
                    family::parameter_values(parameters@),
                    input@,
                ),
            ),
    {
        let coefficients: Vec<S> = match &self.parameterized_part {
            Some(family) => {
                proof {
                    family.lemma_valid();
                }
                match family.resolve_coefficients(parameters) {
                    Ok(coefficients) => coefficients,
                    Err(error) => {
                        return Err(error);
                    },
                }
            },
            None => {
                if parameters.len() != 0 {
                    return Err(QmbedError::InvalidOptions(Reason::UnknownParameter { index: 0 }));
                }
                Vec::new()
            },
        };
        self.apply_coefficients(&coefficients, input)
    }

    /// Images of the vectors of a batch under an algebraic view of the family with
    /// parameters.
    pub fn apply_batch(
        &self,
        parameters: &Vec<(String, S)>,
        inputs: &Vec<Vec<S>>,
        action: OperatorAction,
    ) -> (result: Result<Vec<Vec<S>>>)
        requires
            self.valid(),
        ensures
            batch_is(
                result,
                if action == OperatorAction::Normal {
                    family_batch(
                        self@,
                        family::parameter_names(parameters@),
                        family::parameter_values(parameters@),
                        columns_of(inputs@),
                        inputs@.len(),
                    )
                } else {
                    match evaluated(
                        self@,
                        family::parameter_names(parameters@),
                        family::parameter_values(parameters@),
                    ) {
                        Err(error) => Err(error),
                        Ok(model) => entries_batch(
                            model,
                            columns_of(inputs@),
                            action,
                            inputs@.len(),
                        ),
                    }
                },
            ),
    {
        if action != OperatorAction::Normal {
            return match self.materialize(parameters, MatrixFormat::MatrixFree) {
                Ok(operator) => {
                    proof {
                        lemma_entries_batch(operator, columns_of(inputs@), action, inputs@.len());
                        lemma_batch_in_format(
                            evaluated(
                                self@,
                                family::parameter_names(parameters@),
                                family::parameter_values(parameters@),
                            )->Ok_0,
                            MatrixFormat::MatrixFree,
                            columns_of(inputs@),
                            action,
                            inputs@.len(),
                        );
                    }
                    apply_operator_batch(&operator, inputs, action)
                },
                Err(error) => Err(error),
            };
        }
        let ghost columns = columns_of(inputs@);
        let ghost names = family::parameter_names(parameters@);
        let ghost values = family::parameter_values(parameters@);
        let mut outputs: Vec<Vec<S>> = Vec::new();
        let mut next: usize = 0;
        assert(columns_of(outputs@) =~= Seq::empty());
        while next < inputs.len()
            invariant
                next <= inputs@.len(),
                self.valid(),
                action == OperatorAction::Normal,
                columns == columns_of(inputs@),
                names == family::parameter_names(parameters@),
                values == family::parameter_values(parameters@),
                family_batch(self@, names, values, columns, next as nat) == Ok::<
                    Seq<Seq<S>>,
                    QmbedError,
                >(columns_of(outputs@)),
            decreases inputs@.len() - next,
        {
            assert(columns[next as int] == inputs@[next as int]@);
            match self.apply(parameters, &inputs[next]) {
                Ok(output) => {
                    let ghost before = columns_of(outputs@);
                    outputs.push(output);
                    assert(columns_of(outputs@) =~= before.push(output@));
                },
                Err(error) => {
                    proof {
                        lemma_family_batch_fails(
                            self@,
                            names,
                            values,
                            columns,
                            (next + 1) as nat,
                            inputs@.len(),
                        );
                    }
                    return Err(error);
                },
            }
            next += 1;
        }
        Ok(outputs)
    }
}

/// Images of the first vectors of a batch under a family with parameters.
pub open spec fn family_batch<S: Scalar>(
    model: FamilyModel<S>,
    names: Seq<Seq<char>>,
    values: Seq<S>,
    inputs: Seq<Seq<S>>,
    count: nat,
) -> core::result::Result<Seq<Seq<S>>, QmbedError>
    decreases count,
{
    if count == 0 {
        Ok(Seq::empty())
    } else {
        match family_batch(model, names, values, inputs, (count - 1) as nat) {
            Err(error) => Err(error),
            Ok(before) => match parameter_image(model, names, values, inputs[count - 1]) {
                Ok(output) => Ok(before.push(output)),
                Err(error) => Err(error),
            },
        }
    }
}

proof fn lemma_family_batch_fails<S: Scalar>(
    model: FamilyModel<S>,
    names: Seq<Seq<char>>,
    values: Seq<S>,
    inputs: Seq<Seq<S>>,
    count: nat,
    later: nat,
)
    requires
        count <= later,
        family_batch(model, names, values, inputs, count) is Err,
    ensures
        family_batch(model, names, values, inputs, later) == family_batch(
            model,
            names,
            values,
            inputs,
            count,
        ),
    decreases later,
{
    if count < later {
        lemma_family_batch_fails(model, names, values, inputs, count, (later - 1) as nat);
    }
}

/// Image of a vector under an algebraic view of stored entries.
pub open spec fn entries_image<S: Scalar>(
    model: OperatorModel<S>,
    action: OperatorAction,
    input: Seq<S>,
) -> Seq<S> {
    let rows = model.rows as nat;
    let columns = model.columns as nat;
    match action {
        OperatorAction::Normal => linear::entries_apply(model.entries, input, rows),
        OperatorAction::Adjoint => linear::entries_apply_adjoint(model.entries, input, columns),
        OperatorAction::Conjugate => linear::conjugated(
            linear::entries_apply(model.entries, linear::conjugated(input), rows),
        ),
        OperatorAction::Transpose => linear::conjugated(
            linear::entries_apply_adjoint(model.entries, linear::conjugated(input), columns),
        ),
    }
}

/// Images of the first vectors of a batch under an algebraic view of stored entries.
pub open spec fn entries_batch<S: Scalar>(
    model: OperatorModel<S>,
    inputs: Seq<Seq<S>>,
    action: OperatorAction,
    count: nat,
) -> core::result::Result<Seq<Seq<S>>, QmbedError>
    decreases count,
{
    if count == 0 {
        Ok(Seq::empty())
    } else {
        match entries_batch(model, inputs, action, (count - 1) as nat) {
            Err(error) => Err(error),
            Ok(before) => {
                let input = inputs[count - 1];
                let expected = match action {
                    OperatorAction::Normal | OperatorAction::Conjugate => model.columns,
                    OperatorAction::Transpose | OperatorAction::Adjoint => model.rows,
                };
                if input.len() != expected {
                    Err(
                        QmbedError::DimensionMismatch(Reason::Length {
                            what: "operator action input",
                            found: input.len() as usize,
                            expected,
                        }),
                    )
                } else {
                    Ok(before.push(entries_image(model, action, input)))
                }
            },
        }
    }
}

/// The format of an operator does not show in the images of vectors.
proof fn lemma_batch_in_format<S: Scalar>(
    model: OperatorModel<S>,
    format: MatrixFormat,
    inputs: Seq<Seq<S>>,
    action: OperatorAction,
    count: nat,
)
    ensures
        entries_batch(linear::in_format(model, format), inputs, action, count) == entries_batch(
            model,
            inputs,
            action,
            count,
        ),
    decreases count,
{
    if count > 0 {
        lemma_batch_in_format(model, format, inputs, action, (count - 1) as nat);
    }
}

pub proof fn lemma_entries_batch<S: Scalar>(
    operator: Operator<S>,
    inputs: Seq<Seq<S>>,
    action: OperatorAction,
    count: nat,
)
    ensures
        batch_images(operator, inputs, action, count) == entries_batch(
            operator@,
            inputs,
            action,
            count,
        ),
    decreases count,
{
    if count > 0 {
        lemma_entries_batch(operator, inputs, action, (count - 1) as nat);
    }
}

/// A list of entries again.
fn copy_entries<S: Copy>(entries: &Vec<(usize, usize, S)>) -> (copy: Vec<(usize, usize, S)>)
    ensures
        copy@ == entries@,
{
    let mut copy: Vec<(usize, usize, S)> = Vec::new();
    let mut next: usize = 0;
    while next < entries.len()
        invariant
            next <= entries@.len(),
            copy@ == entries@.take(next as int),
        decreases entries@.len() - next,
    {
        let (row, column, value) = entries[next];
        copy.push((row, column, value));
        next += 1;
        assert(copy@ =~= entries@.take(next as int));
    }
    assert(copy@ =~= entries@);
    copy
}

} // verus!

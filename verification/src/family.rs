//! Named operator components that share one space.

use vstd::prelude::*;

use crate::error::{QmbedError, Reason, Result};
use crate::linear;
use crate::linear::{
    axpy, zero_vector, LinearOperator, MatrixFormat, Operator, OperatorModel, Scalar,
};

verus! {

/// Name, operator and default coefficient of a component.
pub struct ComponentModel<S> {
    pub name: Seq<char>,
    pub operator: OperatorModel<S>,
    pub default: Option<S>,
}

/// A named operator with an optional default coefficient.
#[derive(Debug)]
pub struct QuantumComponent<S> {
    name: String,
    operator: Operator<S>,
    default: Option<S>,
}

impl<S> View for QuantumComponent<S> {
    type V = ComponentModel<S>;

    closed spec fn view(&self) -> ComponentModel<S> {
        ComponentModel { name: self.name@, operator: self.operator@, default: self.default }
    }
}

impl<S: Scalar> QuantumComponent<S> {
    /// Entries of the operator inside its shape.
    pub open spec fn valid(&self) -> bool {
        linear::entries_fit(
            self@.operator.entries,
            self@.operator.rows,
            self@.operator.columns,
        )
    }

    /// A component whose coefficient has to be given.
    pub fn required(name: String, operator: Operator<S>) -> (component: Self)
        ensures
            component@ == (ComponentModel {
                name: name@,
                operator: operator@,
                default: None::<S>,
            }),
    {
        QuantumComponent { name, operator, default: None }
    }

    /// A component with a default coefficient.
    pub fn with_default(name: String, operator: Operator<S>, default: S) -> (component: Self)
        ensures
            component@ == (ComponentModel {
                name: name@,
                operator: operator@,
                default: Some(default),
            }),
    {
        QuantumComponent { name, operator, default: Some(default) }
    }

    /// A component with or without a default coefficient.
    pub fn with_optional_default(
        name: String,
        operator: Operator<S>,
        default: Option<S>,
    ) -> (component: Self)
        ensures
            component@ == (ComponentModel { name: name@, operator: operator@, default }),
    {
        match default {
            Some(default) => Self::with_default(name, operator, default),
            None => Self::required(name, operator),
        }
    }

    pub fn name(&self) -> (name: &String)
        ensures
            name@ == self@.name,
    {
        &self.name
    }

    pub fn operator(&self) -> (operator: &Operator<S>)
        ensures
            operator@ == self@.operator,
    {
        &self.operator
    }

    pub fn default(&self) -> (default: Option<S>)
        ensures
            default == self@.default,
    {
        self.default
    }

    /// The same component again.
    pub fn copied(&self) -> (component: Self)
        ensures
            component@ == self@,
    {
        QuantumComponent {
            name: self.name.clone(),
            operator: self.operator.copied(),
            default: self.default,
        }
    }
}

/// Models of a list of components.
pub open spec fn models<S>(components: Seq<QuantumComponent<S>>) -> Seq<ComponentModel<S>> {
    Seq::new(components.len(), |k: int| components[k]@)
}

/// Names of a list of components.
pub open spec fn names_of<S>(components: Seq<ComponentModel<S>>) -> Seq<Seq<char>> {
    Seq::new(components.len(), |k: int| components[k].name)
}

/// First place of a name among the first of a list.
pub open spec fn position(names: Seq<Seq<char>>, name: Seq<char>, count: nat) -> Option<nat>
    decreases count,
{
    if count == 0 {
        None
    } else {
        match position(names, name, (count - 1) as nat) {
            Some(place) => Some(place),
            None => if names[count - 1] == name {
                Some((count - 1) as nat)
            } else {
                None
            },
        }
    }
}

/// A first place stays the first place in a longer list.
pub proof fn lemma_position(names: Seq<Seq<char>>, name: Seq<char>, count: nat, later: nat)
    requires
        count <= later,
        position(names, name, count) is Some,
    ensures
        position(names, name, later) == position(names, name, count),
    decreases later,
{
    if count < later {
        lemma_position(names, name, count, (later - 1) as nat);
    }
}

/// A first place lies in the list and holds the name.
pub proof fn lemma_position_found(names: Seq<Seq<char>>, name: Seq<char>, count: nat)
    requires
        count <= names.len(),
    ensures
        match position(names, name, count) {
            Some(place) => place < count && names[place as int] == name,
            None => forall|k: int| 0 <= k < count ==> #[trigger] names[k] != name,
        },
    decreases count,
{
    if count > 0 {
        lemma_position_found(names, name, (count - 1) as nat);
    }
}

/// First place of a component name among the first of a list.
pub fn find_component<S: Scalar>(
    components: &Vec<QuantumComponent<S>>,
    name: &String,
    count: usize,
) -> (place: Option<usize>)
    requires
        count <= components@.len(),
    ensures
        match place {
            Some(place) => place < count && position(
                names_of(models(components@)),
                name@,
                count as nat,
            ) == Some(place as nat),
            None => position(names_of(models(components@)), name@, count as nat) is None,
        },
{
    let ghost names = names_of(models(components@));
    let mut next: usize = 0;
    while next < count
        invariant
            next <= count <= components@.len(),
            names == names_of(models(components@)),
            position(names, name@, next as nat) is None,
        decreases count - next,
    {
        if *components[next].name() == *name {
            proof {
                assert(names[next as int] == name@);
                lemma_position(names, name@, (next + 1) as nat, count as nat);
            }
            return Some(next);
        }
        assert(names[next as int] != name@);
        next += 1;
    }
    None
}

/// What is wrong with the first components of a family, if anything.
pub open spec fn components_error<S: Scalar>(
    components: Seq<ComponentModel<S>>,
    count: nat,
) -> Option<QmbedError>
    decreases count,
{
    if count == 0 {
        None
    } else {
        match components_error(components, (count - 1) as nat) {
            Some(error) => Some(error),
            None => {
                let component = components[count - 1];
                if component.name.len() == 0 || position(
                    names_of(components),
                    component.name,
                    (count - 1) as nat,
                ) is Some {
                    Some(QmbedError::InvalidOptions(Reason::Text("component names must be nonempty and unique")))
                } else if component.default is Some && !component.default->0.spec_is_finite() {
                    Some(QmbedError::InvalidOptions(Reason::Text("component defaults must be finite")))
                } else if component.operator.rows != components[0].operator.rows
                    || component.operator.columns != components[0].operator.columns {
                    Some(
                        QmbedError::DimensionMismatch(
                            Reason::Text("operator components must have equal shapes"),
                        ),
                    )
                } else {
                    None
                }
            },
        }
    }
}

/// What is wrong with the components of a family, if anything.
pub open spec fn family_error<S: Scalar>(components: Seq<ComponentModel<S>>) -> Option<QmbedError> {
    if components.len() == 0 {
        Some(QmbedError::InvalidOptions(Reason::Text("an operator family requires at least one component")))
    } else {
        components_error(components, components.len())
    }
}

proof fn lemma_components_error<S: Scalar>(
    components: Seq<ComponentModel<S>>,
    count: nat,
    later: nat,
)
    requires
        count <= later,
        components_error(components, count) is Some,
    ensures
        components_error(components, later) == components_error(components, count),
    decreases later,
{
    if count < later {
        lemma_components_error(components, count, (later - 1) as nat);
    }
}

/// Operators with coefficients to be chosen, in a stable order.
#[derive(Debug)]
pub struct QuantumOperator<S> {
    components: Vec<QuantumComponent<S>>,
}

impl<S> View for QuantumOperator<S> {
    type V = Seq<ComponentModel<S>>;

    closed spec fn view(&self) -> Seq<ComponentModel<S>> {
        models(self.components@)
    }
}

/// Whether every component has its entries inside the shape of the first.
pub open spec fn same_shapes<S: Scalar>(components: Seq<ComponentModel<S>>) -> bool {
    forall|k: int|
        0 <= k < components.len() ==> (#[trigger] components[k]).operator.rows
            == components[0].operator.rows && components[k].operator.columns
            == components[0].operator.columns && linear::entries_fit(
            components[k].operator.entries,
            components[k].operator.rows,
            components[k].operator.columns,
        )
}

/// Coefficients for the first components: the given ones, else the defaults.
pub open spec fn resolved<S: Scalar>(
    components: Seq<ComponentModel<S>>,
    names: Seq<Seq<char>>,
    values: Seq<S>,
    count: nat,
) -> core::result::Result<Seq<S>, QmbedError>
    decreases count,
{
    if count == 0 {
        Ok(Seq::empty())
    } else {
        match resolved(components, names, values, (count - 1) as nat) {
            Err(error) => Err(error),
            Ok(before) => {
                let component = components[count - 1];
                match position(names, component.name, names.len()) {
                    Some(place) => Ok(before.push(values[place as int])),
                    None => match component.default {
                        Some(value) => Ok(before.push(value)),
                        None => Err(
                            QmbedError::InvalidOptions(Reason::MissingParameter { component: (count - 1) as usize }),
                        ),
                    },
                }
            },
        }
    }
}

/// First of the given parameters that no component has.
pub open spec fn unknown_parameter<S>(
    components: Seq<ComponentModel<S>>,
    names: Seq<Seq<char>>,
    count: nat,
) -> Option<nat>
    decreases count,
{
    if count == 0 {
        None
    } else {
        match unknown_parameter(components, names, (count - 1) as nat) {
            Some(place) => Some(place),
            None => if position(names_of(components), names[count - 1], components.len()) is None {
                Some((count - 1) as nat)
            } else {
                None
            },
        }
    }
}

/// Coefficients of all components under a choice of parameters.
pub open spec fn coefficients_for<S: Scalar>(
    components: Seq<ComponentModel<S>>,
    names: Seq<Seq<char>>,
    values: Seq<S>,
) -> core::result::Result<Seq<S>, QmbedError> {
    match unknown_parameter(components, names, names.len()) {
        Some(place) => Err(QmbedError::InvalidOptions(Reason::UnknownParameter { index: place as usize })),
        None => resolved(components, names, values, components.len()),
    }
}

proof fn lemma_resolved_fails<S: Scalar>(
    components: Seq<ComponentModel<S>>,
    names: Seq<Seq<char>>,
    values: Seq<S>,
    count: nat,
    later: nat,
)
    requires
        count <= later,
        resolved(components, names, values, count) is Err,
    ensures
        resolved(components, names, values, later) == resolved(components, names, values, count),
    decreases later,
{
    if count < later {
        lemma_resolved_fails(components, names, values, count, (later - 1) as nat);
    }
}

proof fn lemma_unknown_parameter<S>(
    components: Seq<ComponentModel<S>>,
    names: Seq<Seq<char>>,
    count: nat,
    later: nat,
)
    requires
        count <= later,
        unknown_parameter(components, names, count) is Some,
    ensures
        unknown_parameter(components, names, later) == unknown_parameter(components, names, count),
    decreases later,
{
    if count < later {
        lemma_unknown_parameter(components, names, count, (later - 1) as nat);
    }
}

proof fn lemma_resolved_length<S: Scalar>(
    components: Seq<ComponentModel<S>>,
    names: Seq<Seq<char>>,
    values: Seq<S>,
    count: nat,
)
    ensures
        match resolved(components, names, values, count) {
            Ok(list) => list.len() == count,
            Err(_) => true,
        },
    decreases count,
{
    if count > 0 {
        lemma_resolved_length(components, names, values, (count - 1) as nat);
    }
}

/// Coefficients for all components exist whenever they can be resolved.
pub proof fn lemma_coefficients_length<S: Scalar>(
    components: Seq<ComponentModel<S>>,
    names: Seq<Seq<char>>,
    values: Seq<S>,
)
    ensures
        match coefficients_for(components, names, values) {
            Ok(list) => list.len() == components.len(),
            Err(_) => true,
        },
{
    lemma_resolved_length(components, names, values, components.len());
}

/// Names of a list of parameters.
pub open spec fn parameter_names<S>(parameters: Seq<(String, S)>) -> Seq<Seq<char>> {
    Seq::new(parameters.len(), |k: int| parameters[k].0@)
}

/// Values of a list of parameters.
pub open spec fn parameter_values<S>(parameters: Seq<(String, S)>) -> Seq<S> {
    Seq::new(parameters.len(), |k: int| parameters[k].1)
}

fn find_parameter<S: Scalar>(parameters: &Vec<(String, S)>, name: &String) -> (place: Option<
    usize,
>)
    ensures
        match place {
            Some(place) => place < parameters@.len() && position(
                parameter_names(parameters@),
                name@,
                parameters@.len(),
            ) == Some(place as nat),
            None => position(parameter_names(parameters@), name@, parameters@.len()) is None,
        },
{
    let ghost names = parameter_names(parameters@);
    let mut next: usize = 0;
    while next < parameters.len()
        invariant
            next <= parameters@.len(),
            names == parameter_names(parameters@),
            position(names, name@, next as nat) is None,
        decreases parameters@.len() - next,
    {
        if parameters[next].0 == *name {
            proof {
                assert(names[next as int] == name@);
                lemma_position(names, name@, (next + 1) as nat, parameters@.len());
            }
            return Some(next);
        }
        assert(names[next as int] != name@);
        next += 1;
    }
    None
}

/// Sum of the images of a vector under the first components.
pub open spec fn combined_apply<S: Scalar>(
    components: Seq<ComponentModel<S>>,
    coefficients: Seq<S>,
    input: Seq<S>,
    count: nat,
) -> Seq<S>
    decreases count,
{
    let rows = components[0].operator.rows as nat;
    if count == 0 {
        linear::zeros(rows)
    } else {
        linear::add_scaled(
            combined_apply(components, coefficients, input, (count - 1) as nat),
            coefficients[count - 1],
            linear::entries_apply(components[count - 1].operator.entries, input, rows),
        )
    }
}

/// Sums of images have the length of the first component's columns.
pub proof fn lemma_combined_apply<S: Scalar>(
    components: Seq<ComponentModel<S>>,
    coefficients: Seq<S>,
    input: Seq<S>,
    count: nat,
)
    ensures
        combined_apply(components, coefficients, input, count).len()
            == components[0].operator.rows,
    decreases count,
{
    if count > 0 {
        lemma_combined_apply(components, coefficients, input, (count - 1) as nat);
    }
}

/// Entries of a multiple of an operator.
pub open spec fn scaled_entries<S: Scalar>(entries: Seq<(usize, usize, S)>, factor: S) -> Seq<
    (usize, usize, S),
> {
    Seq::new(
        entries.len(),
        |i: int| (entries[i].0, entries[i].1, factor.spec_times(entries[i].2)),
    )
}

/// Entries of the sum of the first components.
pub open spec fn combined_entries<S: Scalar>(
    components: Seq<ComponentModel<S>>,
    coefficients: Seq<S>,
    count: nat,
) -> Seq<(usize, usize, S)>
    decreases count,
{
    if count == 0 {
        Seq::empty()
    } else {
        combined_entries(components, coefficients, (count - 1) as nat) + scaled_entries(
            components[count - 1].operator.entries,
            coefficients[count - 1],
        )
    }
}

/// Entries of the sum of the first components lie inside the shape of the first.
pub proof fn lemma_combined_entries<S: Scalar>(
    components: Seq<ComponentModel<S>>,
    coefficients: Seq<S>,
    count: nat,
)
    requires
        count <= components.len(),
        same_shapes(components),
    ensures
        linear::entries_fit(
            combined_entries(components, coefficients, count),
            components[0].operator.rows,
            components[0].operator.columns,
        ),
    decreases count,
{
    if count > 0 {
        lemma_combined_entries(components, coefficients, (count - 1) as nat);
        let entries = components[count - 1].operator.entries;
        let multiples = scaled_entries(entries, coefficients[count - 1]);
        assert(components[count - 1].operator.rows == components[0].operator.rows);
        assert forall|i: int| 0 <= i < multiples.len() implies (#[trigger] multiples[i]).0
            < components[0].operator.rows && multiples[i].1 < components[0].operator.columns by {
            assert(entries[i].0 < components[0].operator.rows);
        }
    }
}

/// Appends the entries of a multiple of an operator.
pub(crate) fn append_scaled<S: Scalar>(
    target: &mut Vec<(usize, usize, S)>,
    entries: &Vec<(usize, usize, S)>,
    factor: S,
)
    ensures
        final(target)@ == old(target)@ + scaled_entries(entries@, factor),
{
    let ghost before = target@;
    let ghost multiples = scaled_entries(entries@, factor);
    let mut next: usize = 0;
    assert(before + multiples.take(0) =~= before);
    while next < entries.len()
        invariant
            next <= entries@.len(),
            multiples == scaled_entries(entries@, factor),
            target@ == before + multiples.take(next as int),
        decreases entries@.len() - next,
    {
        let (row, column, value) = entries[next];
        target.push((row, column, factor.times(&value)));
        next += 1;
        assert(target@ =~= before + multiples.take(next as int));
    }
    assert(multiples.take(next as int) =~= multiples);
}

impl<S: Scalar> QuantumOperator<S> {
    /// Components of one shape with different names.
    pub closed spec fn valid(&self) -> bool {
        &&& self@.len() > 0
        &&& same_shapes(self@)
        &&& family_error(self@) is None
    }

    /// What a valid family promises.
    pub proof fn lemma_valid(&self)
        requires
            self.valid(),
        ensures
            self@.len() > 0,
            same_shapes(self@),
            family_error(self@) is None,
    {
    }

    /// The family with the given components.
    pub fn new(components: Vec<QuantumComponent<S>>) -> (result: Result<Self>)
        requires
            forall|k: int| 0 <= k < components@.len() ==> (#[trigger] components@[k]).valid(),
        ensures
            match result {
                Ok(family) => {
                    &&& family_error(models(components@)) is None
                    &&& family.valid()
                    &&& family@ == models(components@)
                },
                Err(error) => family_error(models(components@)) == Some(error),
            },
    {
        if components.len() == 0 {
            return Err(
                QmbedError::InvalidOptions(Reason::Text("an operator family requires at least one component")),
            );
        }
        let ghost list = models(components@);
        assert(components@[0].valid());
        let shape: (usize, usize) = components[0].operator().shape();
        let mut next: usize = 0;
        while next < components.len()
            invariant
                next <= components@.len(),
                components@.len() > 0,
                list == models(components@),
                forall|k: int| 0 <= k < components@.len() ==> (#[trigger] components@[k]).valid(),
                shape == (list[0].operator.rows, list[0].operator.columns),
                components_error(list, next as nat) is None,
                forall|k: int|
                    0 <= k < next ==> (#[trigger] list[k]).operator.rows == shape.0
                        && list[k].operator.columns == shape.1,
            decreases components@.len() - next,
        {
            let component: &QuantumComponent<S> = &components[next];
            assert(components@[next as int].valid());
            assert(list[next as int] == component@);
            let fault: Option<QmbedError> = if component.name().as_str().is_empty()
                || find_component(&components, component.name(), next).is_some() {
                Some(QmbedError::InvalidOptions(Reason::Text("component names must be nonempty and unique")))
            } else {
                match component.default() {
                    Some(value) if !value.is_finite() => Some(
                        QmbedError::InvalidOptions(Reason::Text("component defaults must be finite")),
                    ),
                    _ => {
                        let found: (usize, usize) = component.operator().shape();
                        if found.0 != shape.0 || found.1 != shape.1 {
                            Some(
                                QmbedError::DimensionMismatch(
                                    Reason::Text("operator components must have equal shapes"),
                                ),
                            )
                        } else {
                            None
                        }
                    },
                }
            };
            if let Some(error) = fault {
                proof {
                    lemma_components_error(list, (next + 1) as nat, list.len());
                }
                return Err(error);
            }
            next += 1;
        }
        proof {
            assert forall|k: int| 0 <= k < list.len() implies (#[trigger] list[k]).operator.rows
                == list[0].operator.rows && list[k].operator.columns == list[0].operator.columns
                && linear::entries_fit(
                list[k].operator.entries,
                list[k].operator.rows,
                list[k].operator.columns,
            ) by {
                assert(components@[k].valid());
            }
        }
        Ok(QuantumOperator { components })
    }

    /// The components in order.
    pub fn components(&self) -> (components: &Vec<QuantumComponent<S>>)
        ensures
            models(components@) == self@,
    {
        &self.components
    }

    /// Numbers of rows and columns of every component.
    pub fn shape(&self) -> (shape: (usize, usize))
        requires
            self.valid(),
        ensures
            shape == (self@[0].operator.rows, self@[0].operator.columns),
    {
        assert(self@[0].operator == self.components@[0]@.operator);
        self.components[0].operator().shape()
    }

    /// The component with a name.
    pub fn component(&self, name: &String) -> (result: Result<&Operator<S>>)
        ensures
            match result {
                Ok(operator) => {
                    let place = position(names_of(self@), name@, self@.len());
                    place is Some && operator@ == self@[place->0 as int].operator
                },
                Err(error) => position(names_of(self@), name@, self@.len()) is None && error
                    == QmbedError::InvalidOptions(Reason::UnknownComponent),
            },
    {
        match find_component(&self.components, name, self.components.len()) {
            Some(place) => {
                assert(self@[place as int] == self.components@[place as int]@);
                Ok(self.components[place].operator())
            },
            None => Err(QmbedError::InvalidOptions(Reason::UnknownComponent)),
        }
    }

    /// Coefficients of all components under a choice of parameters.
    pub fn resolve_coefficients(&self, parameters: &Vec<(String, S)>) -> (result: Result<Vec<S>>)
        ensures
            linear::vector_is(
                result,
                coefficients_for(
                    self@,
                    parameter_names(parameters@),
                    parameter_values(parameters@),
                ),
            ),
    {
        let ghost names = parameter_names(parameters@);
        let ghost values = parameter_values(parameters@);
        let mut next: usize = 0;
        while next < parameters.len()
            invariant
                next <= parameters@.len(),
                names == parameter_names(parameters@),
                unknown_parameter(self@, names, next as nat) is None,
            decreases parameters@.len() - next,
        {
            assert(names[next as int] == parameters@[next as int].0@);
            if find_component(
                &self.components,
                &parameters[next].0,
                self.components.len(),
            ).is_none() {
                proof {
                    lemma_unknown_parameter(self@, names, (next + 1) as nat, names.len());
                }
                return Err(QmbedError::InvalidOptions(Reason::UnknownParameter { index: next }));
            }
            next += 1;
        }
        let mut coefficients: Vec<S> = Vec::new();
        let mut place: usize = 0;
        while place < self.components.len()
            invariant
                place <= self.components@.len(),
                names == parameter_names(parameters@),
                values == parameter_values(parameters@),
                unknown_parameter(self@, names, names.len()) is None,
                resolved(self@, names, values, place as nat) == Ok::<Seq<S>, QmbedError>(
                    coefficients@,
                ),
            decreases self.components@.len() - place,
        {
            assert(self@[place as int] == self.components@[place as int]@);
            match find_parameter(parameters, self.components[place].name()) {
                Some(found) => {
                    coefficients.push(parameters[found].1);
                },
                None => match self.components[place].default() {
                    Some(value) => {
                        coefficients.push(value);
                    },
                    None => {
                        proof {
                            lemma_resolved_fails(
                                self@,
                                names,
                                values,
                                (place + 1) as nat,
                                self@.len(),
                            );
                        }
                        return Err(QmbedError::InvalidOptions(Reason::MissingParameter { component: place }));
                    },
                },
            }
            place += 1;
        }
        Ok(coefficients)
    }

    /// Sum of the images of a vector under all components.
    pub fn apply_coefficients(&self, coefficients: &Vec<S>, input: &Vec<S>) -> (result: Result<
        Vec<S>,
    >)
        requires
            self.valid(),
            input@.len() == self@[0].operator.columns,
        ensures
            linear::vector_is(
                result,
                if coefficients@.len() == self@.len() {
                    Ok(combined_apply(self@, coefficients@, input@, self@.len()))
                } else {
                    Err(
                        QmbedError::DimensionMismatch(Reason::Length {
                            what: "component coefficients",
                            found: coefficients@.len() as usize,
                            expected: self@.len() as usize,
                        }),
                    )
                },
            ),
    {
        if coefficients.len() != self.components.len() {
            return Err(
                QmbedError::DimensionMismatch(Reason::Length {
                    what: "component coefficients",
                    found: coefficients.len(),
                    expected: self.components.len(),
                }),
            );
        }
        let (rows, _columns) = self.shape();
        let mut output: Vec<S> = zero_vector(rows);
        let mut next: usize = 0;
        while next < self.components.len()
            invariant
                next <= self.components@.len(),
                self.valid(),
                rows == self@[0].operator.rows,
                coefficients@.len() == self@.len(),
                input@.len() == self@[0].operator.columns,
                output@.len() == rows,
                output@ == combined_apply(self@, coefficients@, input@, next as nat),
            decreases self.components@.len() - next,
        {
            let operator: &Operator<S> = self.components[next].operator();
            proof {
                assert(self@[next as int].operator == operator@);
                operator.images_fit(input@);
            }
            match operator.apply(input) {
                Ok(contribution) => {
                    axpy(coefficients[next], &contribution, &mut output);
                },
                Err(error) => {
                    return Err(error);
                },
            }
            next += 1;
        }
        Ok(output)
    }

    /// The operator with the given coefficients.
    pub fn evaluate(&self, parameters: &Vec<(String, S)>, format: MatrixFormat) -> (result: Result<
        Operator<S>,
    >)
        requires
            self.valid(),
        ensures
            match coefficients_for(
                self@,
                parameter_names(parameters@),
                parameter_values(parameters@),
            ) {
                Ok(coefficients) => result matches Ok(operator) && operator.valid() && operator@
                    == (OperatorModel {
                    rows: self@[0].operator.rows,
                    columns: self@[0].operator.columns,
                    entries: combined_entries(self@, coefficients, self@.len()),
                    format,
                }),
                Err(error) => result matches Err(found) && found == error,
            },
    {
        let coefficients: Vec<S> = match self.resolve_coefficients(parameters) {
            Ok(coefficients) => coefficients,
            Err(error) => {
                return Err(error);
            },
        };
        proof {
            lemma_coefficients_length(
                self@,
                parameter_names(parameters@),
                parameter_values(parameters@),
            );
            lemma_combined_entries(self@, coefficients@, self@.len());
        }
        let (rows, columns) = self.shape();
        let mut entries: Vec<(usize, usize, S)> = Vec::new();
        let mut next: usize = 0;
        while next < self.components.len()
            invariant
                next <= self.components@.len(),
                coefficients@.len() == self@.len(),
                entries@ == combined_entries(self@, coefficients@, next as nat),
            decreases self.components@.len() - next,
        {
            let operator: &Operator<S> = self.components[next].operator();
            assert(self@[next as int].operator == operator@);
            append_scaled(&mut entries, operator.triplets(), coefficients[next]);
            next += 1;
        }
        Operator::from_triplets(rows, columns, entries, format)
    }
}

} // verus!

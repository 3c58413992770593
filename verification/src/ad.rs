//! Derivatives of parameterized operator families.

use vstd::prelude::*;

use crate::error::{QmbedError, Reason, Result};
use crate::family;
use crate::family::{ComponentModel, QuantumComponent, QuantumOperator};
use crate::linear;
use crate::linear::{
    axpy, dotc, scale_vector, zero_vector, LinearOperator, Operator, Scalar,
};
use crate::ordered::copy_list;

verus! {

/// Differential domain of a parameter.
#[derive(Clone, Copy, Debug, PartialEq, Eq, Structural)]
pub enum ParameterDomain {
    /// A real parameter, held as a scalar without imaginary part.
    Real,
    /// A complex parameter, differentiated under the pairing `Re(x†y)`.
    Complex,
}

/// Names and domains of an ordered list of parameters.
pub struct SchemaModel {
    pub names: Seq<Seq<char>>,
    pub domains: Seq<ParameterDomain>,
}

/// Names and domains of an ordered list of parameters.
#[derive(Debug)]
pub struct ParameterSchema {
    names: Vec<String>,
    domains: Vec<ParameterDomain>,
}

/// Texts of a list of strings.
pub open spec fn texts(names: Seq<String>) -> Seq<Seq<char>> {
    Seq::new(names.len(), |k: int| names[k]@)
}

impl View for ParameterSchema {
    type V = SchemaModel;

    closed spec fn view(&self) -> SchemaModel {
        SchemaModel { names: texts(self.names@), domains: self.domains@ }
    }
}

/// First of a list of names that is empty or repeats an earlier one.
pub open spec fn bad_name(names: Seq<Seq<char>>, count: nat) -> Option<nat>
    decreases count,
{
    if count == 0 {
        None
    } else {
        match bad_name(names, (count - 1) as nat) {
            Some(place) => Some(place),
            None => if names[count - 1].len() == 0 || family::position(
                names,
                names[count - 1],
                (count - 1) as nat,
            ) is Some {
                Some((count - 1) as nat)
            } else {
                None
            },
        }
    }
}

/// What is wrong with a schema, if anything.
pub open spec fn schema_error(
    names: Seq<Seq<char>>,
    domains: Seq<ParameterDomain>,
) -> Option<QmbedError> {
    if names.len() != domains.len() {
        Some(
            QmbedError::DimensionMismatch(Reason::Length {
                what: "parameter domains",
                found: domains.len() as usize,
                expected: names.len() as usize,
            }),
        )
    } else {
        match bad_name(names, names.len()) {
            Some(place) => Some(QmbedError::InvalidOptions(Reason::ParameterName { index: place as usize })),
            None => None,
        }
    }
}

proof fn lemma_bad_name(names: Seq<Seq<char>>, count: nat, later: nat)
    requires
        count <= later,
        bad_name(names, count) is Some,
    ensures
        bad_name(names, later) == bad_name(names, count),
    decreases later,
{
    if count < later {
        lemma_bad_name(names, count, (later - 1) as nat);
    }
}

/// First place of a name among the first of a list.
fn find_name(names: &Vec<String>, name: &String, count: usize) -> (place: Option<usize>)
    requires
        count <= names@.len(),
    ensures
        match place {
            Some(place) => place < count && family::position(texts(names@), name@, count as nat)
                == Some(place as nat),
            None => family::position(texts(names@), name@, count as nat) is None,
        },
{
    let ghost list = texts(names@);
    let mut next: usize = 0;
    while next < count
        invariant
            next <= count <= names@.len(),
            list == texts(names@),
            family::position(list, name@, next as nat) is None,
        decreases count - next,
    {
        assert(list[next as int] == names@[next as int]@);
        if names[next] == *name {
            proof {
                family::lemma_position(list, name@, (next + 1) as nat, count as nat);
            }
            return Some(next);
        }
        next += 1;
    }
    None
}

fn copy_names(names: &Vec<String>) -> (copy: Vec<String>)
    ensures
        texts(copy@) == texts(names@),
{
    let mut copy: Vec<String> = Vec::new();
    let mut next: usize = 0;
    while next < names.len()
        invariant
            next <= names@.len(),
            copy@.len() == next,
            forall|k: int| 0 <= k < next ==> (#[trigger] copy@[k])@ == names@[k]@,
        decreases names@.len() - next,
    {
        copy.push(names[next].clone());
        next += 1;
    }
    assert(texts(copy@) =~= texts(names@));
    copy
}

/// Names of the components of a family.
fn family_names<S: Scalar>(operator: &QuantumOperator<S>) -> (names: Vec<String>)
    ensures
        texts(names@) == family::names_of(operator@),
{
    let components: &Vec<QuantumComponent<S>> = operator.components();
    let mut names: Vec<String> = Vec::new();
    let mut next: usize = 0;
    while next < components.len()
        invariant
            next <= components@.len(),
            names@.len() == next,
            forall|k: int| 0 <= k < next ==> (#[trigger] names@[k])@ == components@[k]@.name,
        decreases components@.len() - next,
    {
        names.push(components[next].name().clone());
        next += 1;
    }
    proof {
        assert forall|k: int| 0 <= k < names@.len() implies #[trigger] texts(names@)[k]
            == family::names_of(operator@)[k] by {
            assert(family::models(components@)[k] == components@[k]@);
        }
        assert(texts(names@) =~= family::names_of(operator@));
    }
    names
}

impl ParameterSchema {
    /// One domain for each name.
    pub open spec fn valid(&self) -> bool {
        self@.names.len() == self@.domains.len()
    }

    /// The schema with the given names and domains.
    pub fn new(names: Vec<String>, domains: Vec<ParameterDomain>) -> (result: Result<Self>)
        ensures
            match result {
                Ok(schema) => {
                    &&& schema_error(texts(names@), domains@) is None
                    &&& schema.valid()
                    &&& schema@ == (SchemaModel { names: texts(names@), domains: domains@ })
                },
                Err(error) => schema_error(texts(names@), domains@) == Some(error),
            },
    {
        if names.len() != domains.len() {
            return Err(
                QmbedError::DimensionMismatch(Reason::Length {
                    what: "parameter domains",
                    found: domains.len(),
                    expected: names.len(),
                }),
            );
        }
        let ghost list = texts(names@);
        let mut next: usize = 0;
        while next < names.len()
            invariant
                next <= names@.len(),
                names@.len() == domains@.len(),
                list == texts(names@),
                bad_name(list, next as nat) is None,
            decreases names@.len() - next,
        {
            assert(list[next as int] == names@[next as int]@);
            if names[next].as_str().is_empty() || find_name(&names, &names[next], next).is_some() {
                proof {
                    lemma_bad_name(list, (next + 1) as nat, list.len());
                }
                return Err(QmbedError::InvalidOptions(Reason::ParameterName { index: next }));
            }
            next += 1;
        }
        Ok(ParameterSchema { names, domains })
    }

    /// The schema of a family with one domain for all components.
    pub fn for_operator<S: Scalar>(
        operator: &QuantumOperator<S>,
        domain: ParameterDomain,
    ) -> (schema: Self)
        ensures
            schema.valid(),
            schema@ == (SchemaModel {
                names: family::names_of(operator@),
                domains: Seq::new(operator@.len(), |k: int| domain),
            }),
    {
        let names: Vec<String> = family_names(operator);
        let mut domains: Vec<ParameterDomain> = Vec::new();
        let mut next: usize = 0;
        while next < names.len()
            invariant
                next <= names@.len(),
                domains@ == Seq::new(next as nat, |k: int| domain),
            decreases names@.len() - next,
        {
            domains.push(domain);
            next += 1;
            assert(domains@ =~= Seq::new(next as nat, |k: int| domain));
        }
        assert(texts(names@).len() == operator@.len());
        ParameterSchema { names, domains }
    }

    /// The schema of a family with a domain for each component.
    pub fn for_operator_with_domains<S: Scalar>(
        operator: &QuantumOperator<S>,
        domains: Vec<ParameterDomain>,
    ) -> (result: Result<Self>)
        ensures
            match result {
                Ok(schema) => {
                    &&& schema_error(family::names_of(operator@), domains@) is None
                    &&& schema.valid()
                    &&& schema@ == (SchemaModel {
                        names: family::names_of(operator@),
                        domains: domains@,
                    })
                },
                Err(error) => schema_error(family::names_of(operator@), domains@) == Some(error),
            },
    {
        Self::new(family_names(operator), domains)
    }

    /// The names in order.
    pub fn names(&self) -> (names: &Vec<String>)
        ensures
            texts(names@) == self@.names,
    {
        &self.names
    }

    /// The domains in order.
    pub fn domains(&self) -> (domains: &Vec<ParameterDomain>)
        ensures
            domains@ == self@.domains,
    {
        &self.domains
    }

    /// Number of parameters.
    pub fn len(&self) -> (length: usize)
        ensures
            length == self@.names.len(),
    {
        self.names.len()
    }

    /// Whether there is no parameter.
    pub fn is_empty(&self) -> (empty: bool)
        ensures
            empty == (self@.names.len() == 0),
    {
        self.names.len() == 0
    }

    /// The number of the parameter with a name.
    pub fn index_of(&self, name: &String) -> (place: Option<usize>)
        ensures
            match place {
                Some(place) => place < self@.names.len() && family::position(
                    self@.names,
                    name@,
                    self@.names.len(),
                ) == Some(place as nat),
                None => family::position(self@.names, name@, self@.names.len()) is None,
            },
    {
        find_name(&self.names, name, self.names.len())
    }

    /// The same schema again.
    pub fn copied(&self) -> (schema: Self)
        ensures
            schema@ == self@,
    {
        ParameterSchema { names: copy_names(&self.names), domains: copy_list(&self.domains) }
    }

    /// Whether two schemas have the same names and domains.
    pub fn same_as(&self, other: &ParameterSchema) -> (answer: bool)
        ensures
            answer == (self@ == other@),
    {
        if !same_names(&self.names, &other.names) {
            return false;
        }
        if self.domains.len() != other.domains.len() {
            return false;
        }
        let mut next: usize = 0;
        while next < self.domains.len()
            invariant
                next <= self.domains@.len(),
                self.domains@.len() == other.domains@.len(),
                texts(self.names@) == texts(other.names@),
                forall|k: int| 0 <= k < next ==> #[trigger] self.domains@[k] == other.domains@[k],
            decreases self.domains@.len() - next,
        {
            if self.domains[next] != other.domains[next] {
                return false;
            }
            next += 1;
        }
        assert(self.domains@ =~= other.domains@);
        true
    }
}

fn same_names(left: &Vec<String>, right: &Vec<String>) -> (answer: bool)
    ensures
        answer == (texts(left@) == texts(right@)),
{
    if left.len() != right.len() {
        assert(texts(left@).len() != texts(right@).len());
        return false;
    }
    let mut next: usize = 0;
    while next < left.len()
        invariant
            next <= left@.len(),
            left@.len() == right@.len(),
            forall|k: int| 0 <= k < next ==> (#[trigger] left@[k])@ == right@[k]@,
        decreases left@.len() - next,
    {
        if left[next] != right[next] {
            assert(texts(left@)[next as int] != texts(right@)[next as int]);
            return false;
        }
        next += 1;
    }
    assert(texts(left@) =~= texts(right@));
    true
}

/// What is wrong with the first values of a list of parameters, if anything.
pub open spec fn values_error<S: Scalar>(
    domains: Seq<ParameterDomain>,
    values: Seq<S>,
    label: &'static str,
    count: nat,
) -> Option<QmbedError>
    decreases count,
{
    if count == 0 {
        None
    } else {
        match values_error(domains, values, label, (count - 1) as nat) {
            Some(error) => Some(error),
            None => if !values[count - 1].spec_is_finite() {
                Some(QmbedError::InvalidOptions(Reason::NotFinite { what: label, index: (count - 1) as usize }))
            } else if domains[count - 1] == ParameterDomain::Real
                && !values[count - 1].spec_is_real() {
                Some(QmbedError::InvalidOptions(Reason::NotReal { what: label, index: (count - 1) as usize }))
            } else {
                None
            },
        }
    }
}

/// What is wrong with a list of parameters, if anything.
pub open spec fn parameters_error<S: Scalar>(
    schema: SchemaModel,
    values: Seq<S>,
    label: &'static str,
) -> Option<QmbedError> {
    if values.len() != schema.names.len() {
        Some(
            QmbedError::DimensionMismatch(Reason::Length {
                what: label,
                found: values.len() as usize,
                expected: schema.names.len() as usize,
            }),
        )
    } else {
        values_error(schema.domains, values, label, values.len())
    }
}

proof fn lemma_values_error<S: Scalar>(
    domains: Seq<ParameterDomain>,
    values: Seq<S>,
    label: &'static str,
    count: nat,
    later: nat,
)
    requires
        count <= later,
        values_error(domains, values, label, count) is Some,
    ensures
        values_error(domains, values, label, later) == values_error(domains, values, label, count),
    decreases later,
{
    if count < later {
        lemma_values_error(domains, values, label, count, (later - 1) as nat);
    }
}

/// Checks the length of a list of parameters, and each value against its domain.
pub fn validate_parameter_vector<S: Scalar>(
    schema: &ParameterSchema,
    values: &Vec<S>,
    label: &'static str,
) -> (result: Result<()>)
    requires
        schema.valid(),
    ensures
        match result {
            Ok(_) => parameters_error(schema@, values@, label) is None,
            Err(error) => parameters_error(schema@, values@, label) == Some(error),
        },
{
    if values.len() != schema.names.len() {
        return Err(
            QmbedError::DimensionMismatch(Reason::Length {
                what: label,
                found: values.len(),
                expected: schema.names.len(),
            }),
        );
    }
    let mut next: usize = 0;
    while next < values.len()
        invariant
            next <= values@.len(),
            schema.valid(),
            values@.len() == schema@.names.len(),
            values_error(schema@.domains, values@, label, next as nat) is None,
        decreases values@.len() - next,
    {
        let fault: Option<QmbedError> = if !values[next].is_finite() {
            Some(QmbedError::InvalidOptions(Reason::NotFinite { what: label, index: next }))
        } else if schema.domains[next] == ParameterDomain::Real && !values[next].is_real() {
            Some(QmbedError::InvalidOptions(Reason::NotReal { what: label, index: next }))
        } else {
            None
        };
        if let Some(error) = fault {
            proof {
                lemma_values_error(
                    schema@.domains,
                    values@,
                    label,
                    (next + 1) as nat,
                    values@.len(),
                );
            }
            return Err(error);
        }
        next += 1;
    }
    Ok(())
}

/// A schema with one value for each parameter.
pub struct ParameterModel<S> {
    pub schema: SchemaModel,
    pub values: Seq<S>,
}

/// Values of the parameters of a family.
#[derive(Debug)]
pub struct ParameterValues<S> {
    schema: ParameterSchema,
    values: Vec<S>,
}

/// A perturbation of the parameters of a family.
#[derive(Debug)]
pub struct ParameterDirection<S> {
    schema: ParameterSchema,
    values: Vec<S>,
}

/// A sensitivity with respect to the parameters of a family.
#[derive(Debug)]
pub struct ParameterGradient<S> {
    schema: ParameterSchema,
    values: Vec<S>,
}

impl<S> View for ParameterValues<S> {
    type V = ParameterModel<S>;

    closed spec fn view(&self) -> ParameterModel<S> {
        ParameterModel { schema: self.schema@, values: self.values@ }
    }
}

impl<S> View for ParameterDirection<S> {
    type V = ParameterModel<S>;

    closed spec fn view(&self) -> ParameterModel<S> {
        ParameterModel { schema: self.schema@, values: self.values@ }
    }
}

impl<S> View for ParameterGradient<S> {
    type V = ParameterModel<S>;

    closed spec fn view(&self) -> ParameterModel<S> {
        ParameterModel { schema: self.schema@, values: self.values@ }
    }
}

/// Whether each parameter has one domain and one value.
pub open spec fn parameters_fit<S>(model: ParameterModel<S>) -> bool {
    &&& model.schema.names.len() == model.schema.domains.len()
    &&& model.schema.names.len() == model.values.len()
}

/// The value of the parameter with a name.
pub open spec fn value_named<S>(model: ParameterModel<S>, name: Seq<char>) -> Option<S> {
    match family::position(model.schema.names, name, model.schema.names.len()) {
        Some(place) => Some(model.values[place as int]),
        None => None,
    }
}

impl<S: Scalar> ParameterValues<S> {
    /// One domain and one value for each name.
    pub open spec fn valid(&self) -> bool {
        parameters_fit(self@)
    }

    /// Values under a schema.
    pub fn new(schema: ParameterSchema, values: Vec<S>) -> (result: Result<Self>)
        requires
            schema.valid(),
        ensures
            match result {
                Ok(parameters) => {
                    &&& parameters_error(schema@, values@, "parameter values") is None
                    &&& parameters.valid()
                    &&& parameters@ == (ParameterModel { schema: schema@, values: values@ })
                },
                Err(error) => parameters_error(schema@, values@, "parameter values") == Some(error),
            },
    {
        match validate_parameter_vector(&schema, &values, "parameter values") {
            Ok(_) => Ok(ParameterValues { schema, values }),
            Err(error) => Err(error),
        }
    }

    /// Real values in component order.
    pub fn real_values(operator: &QuantumOperator<S>, values: Vec<S>) -> (result: Result<Self>)
        ensures
            match result {
                Ok(parameters) => {
                    &&& parameters_error(
                        uniform_schema(operator@, ParameterDomain::Real),
                        values@,
                        "parameter values",
                    ) is None
                    &&& parameters.valid()
                    &&& parameters@ == (ParameterModel {
                        schema: uniform_schema(operator@, ParameterDomain::Real),
                        values: values@,
                    })
                },
                Err(error) => parameters_error(
                    uniform_schema(operator@, ParameterDomain::Real),
                    values@,
                    "parameter values",
                ) == Some(error),
            },
    {
        Self::new(ParameterSchema::for_operator(operator, ParameterDomain::Real), values)
    }

    /// Complex values in component order.
    pub fn complex(operator: &QuantumOperator<S>, values: Vec<S>) -> (result: Result<Self>)
        ensures
            match result {
                Ok(parameters) => {
                    &&& parameters_error(
                        uniform_schema(operator@, ParameterDomain::Complex),
                        values@,
                        "parameter values",
                    ) is None
                    &&& parameters.valid()
                    &&& parameters@ == (ParameterModel {
                        schema: uniform_schema(operator@, ParameterDomain::Complex),
                        values: values@,
                    })
                },
                Err(error) => parameters_error(
                    uniform_schema(operator@, ParameterDomain::Complex),
                    values@,
                    "parameter values",
                ) == Some(error),
            },
    {
        Self::new(ParameterSchema::for_operator(operator, ParameterDomain::Complex), values)
    }

    pub fn schema(&self) -> (schema: &ParameterSchema)
        ensures
            schema@ == self@.schema,
    {
        &self.schema
    }

    pub fn values(&self) -> (values: &Vec<S>)
        ensures
            values@ == self@.values,
    {
        &self.values
    }

    /// A direction in the same space.
    pub fn direction(&self, values: Vec<S>) -> (result: Result<ParameterDirection<S>>)
        requires
            self.valid(),
        ensures
            match result {
                Ok(direction) => {
                    &&& parameters_error(self@.schema, values@, "parameter direction") is None
                    &&& direction.valid()
                    &&& direction@ == (ParameterModel { schema: self@.schema, values: values@ })
                },
                Err(error) => parameters_error(self@.schema, values@, "parameter direction")
                    == Some(error),
            },
    {
        ParameterDirection::new(self.schema.copied(), values)
    }

    /// The value of the parameter with a name.
    pub fn get(&self, name: &String) -> (value: Option<S>)
        requires
            self.valid(),
        ensures
            value == value_named(self@, name@),
    {
        match self.schema.index_of(name) {
            Some(place) => Some(self.values[place]),
            None => None,
        }
    }
}

/// The schema of a family with one domain for all components.
pub open spec fn uniform_schema<S>(
    components: Seq<ComponentModel<S>>,
    domain: ParameterDomain,
) -> SchemaModel {
    SchemaModel {
        names: family::names_of(components),
        domains: Seq::new(components.len(), |k: int| domain),
    }
}

impl<S: Scalar> ParameterDirection<S> {
    /// One domain and one value for each name.
    pub open spec fn valid(&self) -> bool {
        parameters_fit(self@)
    }

    /// A direction under a schema.
    pub fn new(schema: ParameterSchema, values: Vec<S>) -> (result: Result<Self>)
        requires
            schema.valid(),
        ensures
            match result {
                Ok(direction) => {
                    &&& parameters_error(schema@, values@, "parameter direction") is None
                    &&& direction.valid()
                    &&& direction@ == (ParameterModel { schema: schema@, values: values@ })
                },
                Err(error) => parameters_error(schema@, values@, "parameter direction") == Some(
                    error,
                ),
            },
    {
        match validate_parameter_vector(&schema, &values, "parameter direction") {
            Ok(_) => Ok(ParameterDirection { schema, values }),
            Err(error) => Err(error),
        }
    }

    pub fn schema(&self) -> (schema: &ParameterSchema)
        ensures
            schema@ == self@.schema,
    {
        &self.schema
    }

    pub fn values(&self) -> (values: &Vec<S>)
        ensures
            values@ == self@.values,
    {
        &self.values
    }
}

impl<S: Scalar> ParameterGradient<S> {
    /// One domain and one value for each name.
    pub open spec fn valid(&self) -> bool {
        parameters_fit(self@)
    }

    fn new(schema: ParameterSchema, values: Vec<S>) -> (gradient: Self)
        ensures
            gradient@ == (ParameterModel { schema: schema@, values: values@ }),
    {
        ParameterGradient { schema, values }
    }

    pub fn schema(&self) -> (schema: &ParameterSchema)
        ensures
            schema@ == self@.schema,
    {
        &self.schema
    }

    pub fn values(&self) -> (values: &Vec<S>)
        ensures
            values@ == self@.values,
    {
        &self.values
    }

    /// The sensitivity to the parameter with a name.
    pub fn get(&self, name: &String) -> (value: Option<S>)
        requires
            self.valid(),
        ensures
            value == value_named(self@, name@),
    {
        match self.schema.index_of(name) {
            Some(place) => Some(self.values[place]),
            None => None,
        }
    }
}

/// How far a gradient can be trusted.
#[derive(Clone, Copy, Debug, PartialEq, Eq, Structural)]
pub enum GradientStatus {
    /// The rule is exact, or all checks passed.
    Reliable,
    /// The derivative exists, but is badly conditioned.
    IllConditioned,
    /// The derivative does not exist.
    NonDifferentiable,
}

/// Evidence that goes with a derivative.
#[derive(Clone, Copy, Debug)]
pub struct GradientDiagnostics<Size> {
    pub status: GradientStatus,
    /// Residual of the primal computation.
    pub primal_residual: Option<Size>,
    /// Residual of the reverse computation.
    pub backward_residual: Option<Size>,
    /// Spectral gap.
    pub spectral_gap: Option<Size>,
    /// Component actions of the primal computation.
    pub primal_applications: usize,
    /// Component actions of the reverse computation.
    pub backward_applications: usize,
    /// Forward actions that the reverse computation repeats.
    pub recomputations: usize,
}

/// Two applications for each component; the largest count where they do not fit one.
pub open spec fn twice(count: nat) -> usize {
    if 2 * count > usize::MAX {
        usize::MAX
    } else {
        (2 * count) as usize
    }
}

fn count_twice(count: usize) -> (applications: usize)
    ensures
        applications == twice(count as nat),
{
    match count.checked_mul(2) {
        Some(applications) => applications,
        None => usize::MAX,
    }
}

/// Evidence of an exact operator rule.
pub open spec fn exact_evidence<S: Scalar>(
    primal: usize,
    backward: usize,
) -> GradientDiagnostics<S::Size> {
    GradientDiagnostics {
        status: GradientStatus::Reliable,
        primal_residual: Some(S::spec_no_size()),
        backward_residual: Some(S::spec_no_size()),
        spectral_gap: None,
        primal_applications: primal,
        backward_applications: backward,
        recomputations: (backward / 2) as usize,
    }
}

fn exact_operator<S: Scalar>(primal: usize, backward: usize) -> (diagnostics: GradientDiagnostics<
    S::Size,
>)
    ensures
        diagnostics == exact_evidence::<S>(primal, backward),
{
    GradientDiagnostics {
        status: GradientStatus::Reliable,
        primal_residual: Some(S::no_size()),
        backward_residual: Some(S::no_size()),
        spectral_gap: None,
        primal_applications: primal,
        backward_applications: backward,
        recomputations: backward / 2,
    }
}

/// What is wrong with a schema for a family, if anything.
pub open spec fn operator_schema_error<S>(
    components: Seq<ComponentModel<S>>,
    schema: SchemaModel,
) -> Option<QmbedError> {
    if family::names_of(components) == schema.names {
        None
    } else {
        Some(
            QmbedError::InvalidOptions(
                Reason::Text("parameter schema does not match QuantumOperator component order"),
            ),
        )
    }
}

/// Checks that parameters are those of a family, in its order.
pub fn validate_operator_schema<S: Scalar>(
    operator: &QuantumOperator<S>,
    parameters: &ParameterValues<S>,
) -> (result: Result<()>)
    ensures
        match result {
            Ok(_) => operator_schema_error(operator@, parameters@.schema) is None,
            Err(error) => operator_schema_error(operator@, parameters@.schema) == Some(error),
        },
{
    let names: Vec<String> = family_names(operator);
    if same_names(&names, &parameters.schema.names) {
        Ok(())
    } else {
        Err(
            QmbedError::InvalidOptions(
                Reason::Text("parameter schema does not match QuantumOperator component order"),
            ),
        )
    }
}

/// What is wrong with the arguments of a derivative, if anything.
pub open spec fn arguments_error<S>(
    components: Seq<ComponentModel<S>>,
    schema: SchemaModel,
    direction_schema: SchemaModel,
    input: nat,
    input_direction: nat,
) -> Option<QmbedError> {
    match operator_schema_error(components, schema) {
        Some(error) => Some(error),
        None => if direction_schema != schema {
            Some(QmbedError::InvalidOptions(Reason::Text("parameter direction uses a different schema")))
        } else if input != components[0].operator.columns {
            Some(
                QmbedError::DimensionMismatch(Reason::Length {
                    what: "operator input",
                    found: input as usize,
                    expected: components[0].operator.columns,
                }),
            )
        } else if input_direction != components[0].operator.columns {
            Some(
                QmbedError::DimensionMismatch(Reason::Length {
                    what: "input direction",
                    found: input_direction as usize,
                    expected: components[0].operator.columns,
                }),
            )
        } else {
            None
        },
    }
}

/// `A(θ)dx + dA(θ)[dθ]x` over the first components.
pub open spec fn tangent_of<S: Scalar>(
    components: Seq<ComponentModel<S>>,
    values: Seq<S>,
    direction: Seq<S>,
    input: Seq<S>,
    input_direction: Seq<S>,
    count: nat,
) -> Seq<S>
    decreases count,
{
    let rows = components[0].operator.rows as nat;
    if count == 0 {
        linear::zeros(rows)
    } else {
        let entries = components[count - 1].operator.entries;
        linear::add_scaled(
            linear::add_scaled(
                tangent_of(
                    components,
                    values,
                    direction,
                    input,
                    input_direction,
                    (count - 1) as nat,
                ),
                direction[count - 1],
                linear::entries_apply(entries, input, rows),
            ),
            values[count - 1],
            linear::entries_apply(entries, input_direction, rows),
        )
    }
}

/// Value and tangent of an operator application.
#[derive(Debug)]
pub struct ApplyJvp<S: Scalar> {
    /// `A(θ)x`.
    pub value: Vec<S>,
    /// `A(θ)dx + dA(θ)[dθ]x`.
    pub tangent: Vec<S>,
    pub diagnostics: GradientDiagnostics<S::Size>,
}

/// State and parameter cotangents of an operator application.
#[derive(Debug)]
pub struct ApplyCotangents<S: Scalar> {
    pub parameters: ParameterGradient<S>,
    pub state: Vec<S>,
    pub diagnostics: GradientDiagnostics<S::Size>,
}

/// `A(θ)x` and its tangent.
pub fn apply_jvp<S: Scalar>(
    operator: &QuantumOperator<S>,
    parameters: &ParameterValues<S>,
    parameter_direction: &ParameterDirection<S>,
    input: &Vec<S>,
    input_direction: &Vec<S>,
) -> (result: Result<ApplyJvp<S>>)
    requires
        operator.valid(),
        parameters.valid(),
        parameter_direction.valid(),
    ensures
        match arguments_error(
            operator@,
            parameters@.schema,
            parameter_direction@.schema,
            input@.len(),
            input_direction@.len(),
        ) {
            Some(error) => result matches Err(found) && found == error,
            None => {
                &&& result is Ok
                &&& result->Ok_0.value@ == family::combined_apply(
                    operator@,
                    parameters@.values,
                    input@,
                    operator@.len(),
                )
                &&& result->Ok_0.tangent@ == tangent_of(
                    operator@,
                    parameters@.values,
                    parameter_direction@.values,
                    input@,
                    input_direction@,
                    operator@.len(),
                )
                &&& result->Ok_0.diagnostics == exact_evidence::<S>(
                    twice(operator@.len()),
                    0,
                )
            },
        },
{
    proof {
        operator.lemma_valid();
    }
    if let Err(error) = validate_operator_schema(operator, parameters) {
        return Err(error);
    }
    if !parameter_direction.schema.same_as(&parameters.schema) {
        return Err(QmbedError::InvalidOptions(Reason::Text("parameter direction uses a different schema")));
    }
    let (rows, columns) = operator.shape();
    if input.len() != columns {
        return Err(
            QmbedError::DimensionMismatch(Reason::Length {
                what: "operator input",
                found: input.len(),
                expected: columns,
            }),
        );
    }
    if input_direction.len() != columns {
        return Err(
            QmbedError::DimensionMismatch(Reason::Length {
                what: "input direction",
                found: input_direction.len(),
                expected: columns,
            }),
        );
    }
    let components: &Vec<QuantumComponent<S>> = operator.components();
    let mut value: Vec<S> = zero_vector(rows);
    let mut tangent: Vec<S> = zero_vector(rows);
    let mut next: usize = 0;
    assert(family::names_of(operator@).len() == parameters@.schema.names.len());
    while next < components.len()
        invariant
            next <= components@.len(),
            operator@ == family::models(components@),
            operator@.len() > 0,
            family::same_shapes(operator@),
            rows == operator@[0].operator.rows,
            columns == operator@[0].operator.columns,
            input@.len() == columns,
            input_direction@.len() == columns,
            parameters@.values.len() == operator@.len(),
            parameter_direction@.values.len() == operator@.len(),
            arguments_error(
                operator@,
                parameters@.schema,
                parameter_direction@.schema,
                input@.len(),
                input_direction@.len(),
            ) is None,
            value@.len() == rows,
            tangent@.len() == rows,
            value@ == family::combined_apply(
                operator@,
                parameters@.values,
                input@,
                next as nat,
            ),
            tangent@ == tangent_of(
                operator@,
                parameters@.values,
                parameter_direction@.values,
                input@,
                input_direction@,
                next as nat,
            ),
        decreases components@.len() - next,
    {
        let component: &Operator<S> = components[next].operator();
        proof {
            assert(operator@[next as int].operator == component@);
            component.images_fit(input@);
            component.images_fit(input_direction@);
        }
        match component.apply(input) {
            Ok(contribution) => {
                axpy(parameters.values[next], &contribution, &mut value);
                axpy(parameter_direction.values[next], &contribution, &mut tangent);
            },
            Err(error) => {
                return Err(error);
            },
        }
        match component.apply(input_direction) {
            Ok(contribution) => {
                axpy(parameters.values[next], &contribution, &mut tangent);
            },
            Err(error) => {
                return Err(error);
            },
        }
        next += 1;
    }
    Ok(ApplyJvp { value, tangent, diagnostics: exact_operator::<S>(count_twice(components.len()), 0) })
}

/// Pullback of an operator application.
pub struct ApplyPullback<'a, S> {
    operator: &'a QuantumOperator<S>,
    parameters: &'a ParameterValues<S>,
    input: &'a Vec<S>,
}

/// `A(θ)†ȳ` over the first components.
pub open spec fn state_cotangent<S: Scalar>(
    components: Seq<ComponentModel<S>>,
    values: Seq<S>,
    cotangent: Seq<S>,
    count: nat,
) -> Seq<S>
    decreases count,
{
    let columns = components[0].operator.columns as nat;
    if count == 0 {
        linear::zeros(columns)
    } else {
        linear::add_scaled(
            state_cotangent(components, values, cotangent, (count - 1) as nat),
            values[count - 1].spec_conjugate(),
            linear::entries_apply_adjoint(
                components[count - 1].operator.entries,
                cotangent,
                columns,
            ),
        )
    }
}

/// The sensitivity to one parameter.
pub open spec fn parameter_cotangent<S: Scalar>(
    components: Seq<ComponentModel<S>>,
    domain: ParameterDomain,
    input: Seq<S>,
    cotangent: Seq<S>,
    place: int,
) -> S {
    let pairing = linear::inner_product(
        linear::entries_apply(
            components[place].operator.entries,
            input,
            components[0].operator.rows as nat,
        ),
        cotangent,
    );
    match domain {
        ParameterDomain::Real => pairing.spec_real_part(),
        ParameterDomain::Complex => pairing,
    }
}

/// The sensitivities to all parameters.
pub open spec fn parameter_cotangents<S: Scalar>(
    components: Seq<ComponentModel<S>>,
    domains: Seq<ParameterDomain>,
    input: Seq<S>,
    cotangent: Seq<S>,
) -> Seq<S> {
    Seq::new(
        components.len(),
        |k: int| parameter_cotangent(components, domains[k], input, cotangent, k),
    )
}

/// `A(θ)x` and the pullback of its cotangents.
pub fn apply_vjp<'a, S: Scalar>(
    operator: &'a QuantumOperator<S>,
    parameters: &'a ParameterValues<S>,
    input: &'a Vec<S>,
) -> (result: Result<(Vec<S>, ApplyPullback<'a, S>)>)
    requires
        operator.valid(),
        parameters.valid(),
    ensures
        match arguments_error(
            operator@,
            parameters@.schema,
            parameters@.schema,
            input@.len(),
            input@.len(),
        ) {
            Some(error) => result matches Err(found) && found == error,
            None => {
                &&& result is Ok
                &&& result->Ok_0.0@ == family::combined_apply(
                    operator@,
                    parameters@.values,
                    input@,
                    operator@.len(),
                )
                &&& result->Ok_0.1.valid()
                &&& result->Ok_0.1.spec_operator() == operator@
                &&& result->Ok_0.1.spec_parameters() == parameters@
                &&& result->Ok_0.1.spec_input() == input@
            },
        },
{
    proof {
        operator.lemma_valid();
    }
    if let Err(error) = validate_operator_schema(operator, parameters) {
        return Err(error);
    }
    let (_rows, columns) = operator.shape();
    if input.len() != columns {
        return Err(
            QmbedError::DimensionMismatch(Reason::Length {
                what: "operator input",
                found: input.len(),
                expected: columns,
            }),
        );
    }
    assert(family::names_of(operator@).len() == parameters@.schema.names.len());
    match operator.apply_coefficients(&parameters.values, input) {
        Ok(value) => Ok((value, ApplyPullback { operator, parameters, input })),
        Err(error) => Err(error),
    }
}

impl<'a, S: Scalar> ApplyPullback<'a, S> {
    /// The components of the family.
    pub closed spec fn spec_operator(&self) -> Seq<ComponentModel<S>> {
        self.operator@
    }

    /// The parameters.
    pub closed spec fn spec_parameters(&self) -> ParameterModel<S> {
        self.parameters@
    }

    /// The input.
    pub closed spec fn spec_input(&self) -> Seq<S> {
        self.input@
    }

    /// Parameters and input that fit the family.
    pub closed spec fn valid(&self) -> bool {
        &&& self.operator.valid()
        &&& self.parameters.valid()
        &&& operator_schema_error(self.operator@, self.parameters@.schema) is None
        &&& self.input@.len() == self.operator@[0].operator.columns
    }

    /// State and parameter cotangents of an output cotangent.
    pub fn backward(self, output_cotangent: &Vec<S>) -> (result: Result<ApplyCotangents<S>>)
        requires
            self.valid(),
        ensures
            if output_cotangent@.len() != self.spec_operator()[0].operator.rows {
                result matches Err(found) && found == (QmbedError::DimensionMismatch(Reason::Length {
                    what: "output cotangent",
                    found: output_cotangent@.len() as usize,
                    expected: self.spec_operator()[0].operator.rows,
                }))
            } else {
                &&& result is Ok
                &&& result->Ok_0.state@ == state_cotangent(
                    self.spec_operator(),
                    self.spec_parameters().values,
                    output_cotangent@,
                    self.spec_operator().len(),
                )
                &&& result->Ok_0.parameters@.schema == self.spec_parameters().schema
                &&& result->Ok_0.parameters@.values == parameter_cotangents(
                    self.spec_operator(),
                    self.spec_parameters().schema.domains,
                    self.spec_input(),
                    output_cotangent@,
                )
                &&& result->Ok_0.diagnostics == exact_evidence::<S>(
                    self.spec_operator().len() as usize,
                    twice(self.spec_operator().len()),
                )
            },
    {
        let operator: &QuantumOperator<S> = self.operator;
        let parameters: &ParameterValues<S> = self.parameters;
        let input: &Vec<S> = self.input;
        proof {
            operator.lemma_valid();
        }
        let (rows, columns) = operator.shape();
        if output_cotangent.len() != rows {
            return Err(
                QmbedError::DimensionMismatch(Reason::Length {
                    what: "output cotangent",
                    found: output_cotangent.len(),
                    expected: rows,
                }),
            );
        }
        let components: &Vec<QuantumComponent<S>> = operator.components();
        let mut state: Vec<S> = zero_vector(columns);
        let mut gradient: Vec<S> = Vec::new();
        let mut next: usize = 0;
        assert(family::names_of(operator@).len() == parameters@.schema.names.len());
        while next < components.len()
            invariant
                next <= components@.len(),
                operator@ == family::models(components@),
                operator@.len() > 0,
                family::same_shapes(operator@),
                rows == operator@[0].operator.rows,
                columns == operator@[0].operator.columns,
                input@.len() == columns,
                output_cotangent@.len() == rows,
                parameters@.values.len() == operator@.len(),
                parameters@.schema.domains.len() == operator@.len(),
                operator@ == self.spec_operator(),
                parameters@ == self.spec_parameters(),
                input@ == self.spec_input(),
                state@.len() == columns,
                state@ == state_cotangent(
                    operator@,
                    parameters@.values,
                    output_cotangent@,
                    next as nat,
                ),
                gradient@.len() == next,
                forall|k: int|
                    0 <= k < next ==> #[trigger] gradient@[k] == parameter_cotangent(
                        operator@,
                        parameters@.schema.domains[k],
                        input@,
                        output_cotangent@,
                        k,
                    ),
            decreases components@.len() - next,
        {
            let component: &Operator<S> = components[next].operator();
            proof {
                assert(operator@[next as int].operator == component@);
                component.images_fit(output_cotangent@);
                component.images_fit(input@);
            }
            match component.apply_adjoint(output_cotangent) {
                Ok(contribution) => {
                    axpy(parameters.values[next].conjugate(), &contribution, &mut state);
                },
                Err(error) => {
                    return Err(error);
                },
            }
            match component.apply(input) {
                Ok(contribution) => {
                    let pairing: S = dotc(&contribution, output_cotangent);
                    gradient.push(
                        match parameters.schema.domains[next] {
                            ParameterDomain::Real => pairing.real_part(),
                            ParameterDomain::Complex => pairing,
                        },
                    );
                },
                Err(error) => {
                    return Err(error);
                },
            }
            next += 1;
        }
        assert(gradient@ =~= parameter_cotangents(
            operator@,
            parameters@.schema.domains,
            input@,
            output_cotangent@,
        ));
        Ok(
            ApplyCotangents {
                parameters: ParameterGradient::new(parameters.schema.copied(), gradient),
                state,
                diagnostics: exact_operator::<S>(
                    components.len(),
                    count_twice(components.len()),
                ),
            },
        )
    }
}

/// Settings of an eigenvalue computation that a derivative depends on.
#[derive(Clone, Copy, Debug, PartialEq, Eq, Structural)]
pub struct GroundStateOptions {
    /// Number of eigenpairs.
    pub eigenpairs: usize,
    /// Whether the smallest algebraic eigenvalues are asked for.
    pub smallest_algebraic: bool,
}

/// First component that is not Hermitian.
pub open spec fn not_hermitian<S: Scalar>(
    components: Seq<ComponentModel<S>>,
    tolerance: S::Size,
    count: nat,
) -> Option<nat>
    decreases count,
{
    if count == 0 {
        None
    } else {
        match not_hermitian(components, tolerance, (count - 1) as nat) {
            Some(place) => Some(place),
            None => if linear::hermitian(components[count - 1].operator, tolerance) {
                None
            } else {
                Some((count - 1) as nat)
            },
        }
    }
}

proof fn lemma_not_hermitian<S: Scalar>(
    components: Seq<ComponentModel<S>>,
    tolerance: S::Size,
    count: nat,
    later: nat,
)
    requires
        count <= later,
        not_hermitian(components, tolerance, count) is Some,
    ensures
        not_hermitian(components, tolerance, later) == not_hermitian(components, tolerance, count),
    decreases later,
{
    if count < later {
        lemma_not_hermitian(components, tolerance, count, (later - 1) as nat);
    }
}

/// Whether every parameter is real.
pub open spec fn all_real(domains: Seq<ParameterDomain>) -> bool {
    forall|k: int| 0 <= k < domains.len() ==> #[trigger] domains[k] == ParameterDomain::Real
}

/// What keeps a ground-state energy from being differentiated, if anything.
pub open spec fn ground_state_error<S: Scalar>(
    components: Seq<ComponentModel<S>>,
    schema: SchemaModel,
    options: GroundStateOptions,
    tolerance: S::Size,
) -> Option<QmbedError> {
    match operator_schema_error(components, schema) {
        Some(error) => Some(error),
        None => if components[0].operator.rows != components[0].operator.columns {
            Some(
                QmbedError::DimensionMismatch(
                    Reason::Text("ground-state differentiation requires a square operator family"),
                ),
            )
        } else if options.eigenpairs < 2 {
            Some(
                QmbedError::InvalidOptions(
                    Reason::Text("ground-state differentiation requires at least two eigenpairs for gap diagnostics"),
                ),
            )
        } else if !options.smallest_algebraic {
            Some(
                QmbedError::InvalidOptions(
                    Reason::Text("ground-state differentiation requires the SmallestAlgebraic target"),
                ),
            )
        } else if !all_real(schema.domains) {
            Some(
                QmbedError::InvalidOptions(
                    Reason::Text("ground-state energy gradients currently require real parameters"),
                ),
            )
        } else {
            match not_hermitian(components, tolerance, components.len()) {
                Some(place) => Some(
                    QmbedError::InvalidOptions(Reason::NotHermitian { component: place as usize }),
                ),
                None => None,
            }
        },
    }
}

/// Checks that a ground-state energy can be differentiated.
pub fn validate_ground_state_arguments<S: Scalar>(
    operator: &QuantumOperator<S>,
    parameters: &ParameterValues<S>,
    options: GroundStateOptions,
    tolerance: S::Size,
) -> (result: Result<()>)
    requires
        operator.valid(),
    ensures
        match result {
            Ok(_) => ground_state_error(operator@, parameters@.schema, options, tolerance) is None,
            Err(error) => ground_state_error(operator@, parameters@.schema, options, tolerance)
                == Some(error),
        },
{
    if let Err(error) = validate_operator_schema(operator, parameters) {
        return Err(error);
    }
    let (rows, columns) = operator.shape();
    if rows != columns {
        return Err(
            QmbedError::DimensionMismatch(
                Reason::Text("ground-state differentiation requires a square operator family"),
            ),
        );
    }
    if options.eigenpairs < 2 {
        return Err(
            QmbedError::InvalidOptions(
                Reason::Text("ground-state differentiation requires at least two eigenpairs for gap diagnostics"),
            ),
        );
    }
    if !options.smallest_algebraic {
        return Err(
            QmbedError::InvalidOptions(
                Reason::Text("ground-state differentiation requires the SmallestAlgebraic target"),
            ),
        );
    }
    let domains: &Vec<ParameterDomain> = parameters.schema.domains();
    let mut next: usize = 0;
    while next < domains.len()
        invariant
            next <= domains@.len(),
            domains@ == parameters@.schema.domains,
            operator_schema_error(operator@, parameters@.schema) is None,
            operator@[0].operator.rows == operator@[0].operator.columns,
            options.eigenpairs >= 2,
            options.smallest_algebraic,
            forall|k: int| 0 <= k < next ==> #[trigger] domains@[k] == ParameterDomain::Real,
        decreases domains@.len() - next,
    {
        if domains[next] != ParameterDomain::Real {
            assert(domains@[next as int] != ParameterDomain::Real);
            return Err(
                QmbedError::InvalidOptions(
                    Reason::Text("ground-state energy gradients currently require real parameters"),
                ),
            );
        }
        next += 1;
    }
    let components: &Vec<QuantumComponent<S>> = operator.components();
    let mut place: usize = 0;
    while place < components.len()
        invariant
            place <= components@.len(),
            operator@ == family::models(components@),
            operator_schema_error(operator@, parameters@.schema) is None,
            operator@[0].operator.rows == operator@[0].operator.columns,
            options.eigenpairs >= 2,
            options.smallest_algebraic,
            all_real(parameters@.schema.domains),
            not_hermitian(operator@, tolerance, place as nat) is None,
        decreases components@.len() - place,
    {
        assert(operator@[place as int] == components@[place as int]@);
        if !components[place].operator().is_hermitian(tolerance) {
            proof {
                lemma_not_hermitian(operator@, tolerance, (place + 1) as nat, operator@.len());
            }
            return Err(QmbedError::InvalidOptions(Reason::NotHermitian { component: place }));
        }
        place += 1;
    }
    Ok(())
}

/// `⟨ψ|A|ψ⟩` for a component.
pub open spec fn expectation<S: Scalar>(
    components: Seq<ComponentModel<S>>,
    state: Seq<S>,
    place: int,
) -> S {
    linear::inner_product(
        state,
        linear::entries_apply(
            components[place].operator.entries,
            state,
            components[0].operator.rows as nat,
        ),
    ).spec_real_part()
}

/// The derivatives of an isolated eigenvalue: `dE/dθ = ⟨ψ|A|ψ⟩` for each component,
/// with `ψ` the normalized eigenvector.
pub fn energy_gradient<S: Scalar>(
    operator: &QuantumOperator<S>,
    parameters: &ParameterValues<S>,
    state: &Vec<S>,
) -> (result: Result<ParameterGradient<S>>)
    requires
        operator.valid(),
        operator@[0].operator.rows == operator@[0].operator.columns,
    ensures
        if state@.len() != operator@[0].operator.columns {
            result matches Err(found) && found == (QmbedError::DimensionMismatch(Reason::Length {
                what: "eigenvector",
                found: state@.len() as usize,
                expected: operator@[0].operator.columns,
            }))
        } else {
            &&& result is Ok
            &&& result->Ok_0@.schema == parameters@.schema
            &&& result->Ok_0@.values == Seq::new(
                operator@.len(),
                |k: int| expectation(operator@, state@, k),
            )
        },
{
    proof {
        operator.lemma_valid();
    }
    let (_rows, columns) = operator.shape();
    if state.len() != columns {
        return Err(
            QmbedError::DimensionMismatch(Reason::Length {
                what: "eigenvector",
                found: state.len(),
                expected: columns,
            }),
        );
    }
    let components: &Vec<QuantumComponent<S>> = operator.components();
    let mut gradient: Vec<S> = Vec::new();
    let mut next: usize = 0;
    while next < components.len()
        invariant
            next <= components@.len(),
            operator@ == family::models(components@),
            operator@.len() > 0,
            family::same_shapes(operator@),
            operator@[0].operator.rows == operator@[0].operator.columns,
            state@.len() == operator@[0].operator.columns,
            gradient@.len() == next,
            forall|k: int|
                0 <= k < next ==> #[trigger] gradient@[k] == expectation(operator@, state@, k),
        decreases components@.len() - next,
    {
        let component: &Operator<S> = components[next].operator();
        proof {
            assert(operator@[next as int].operator == component@);
            component.images_fit(state@);
        }
        match component.apply(state) {
            Ok(contribution) => {
                gradient.push(dotc(state, &contribution).real_part());
            },
            Err(error) => {
                return Err(error);
            },
        }
        next += 1;
    }
    assert(gradient@ =~= Seq::new(
        operator@.len(),
        |k: int| expectation(operator@, state@, k),
    ));
    Ok(ParameterGradient::new(parameters.schema.copied(), gradient))
}

/// Pullback of a ground-state energy.
#[derive(Debug)]
pub struct GroundStateEnergyPullback<S> {
    gradient: ParameterGradient<S>,
}

impl<S: Scalar> GroundStateEnergyPullback<S> {
    /// The gradient of the energy.
    pub closed spec fn spec_gradient(&self) -> ParameterModel<S> {
        self.gradient@
    }

    /// The pullback with the given gradient; only a reliable gradient has one.
    pub fn new(gradient: ParameterGradient<S>, status: GradientStatus) -> (result: Result<Self>)
        ensures
            if status == GradientStatus::Reliable {
                result matches Ok(pullback) && pullback.spec_gradient() == gradient@
            } else {
                result matches Err(found) && found == QmbedError::InvalidOptions(
                    Reason::Text("ground-state derivative is not reliable"),
                )
            },
    {
        if status == GradientStatus::Reliable {
            Ok(GroundStateEnergyPullback { gradient })
        } else {
            Err(QmbedError::InvalidOptions(Reason::Text("ground-state derivative is not reliable")))
        }
    }

    /// The gradient times an energy cotangent.
    pub fn apply(self, cotangent: S) -> (result: Result<ParameterGradient<S>>)
        ensures
            if cotangent.spec_is_finite() {
                &&& result is Ok
                &&& result->Ok_0@.schema == self.spec_gradient().schema
                &&& result->Ok_0@.values == linear::scaled(self.spec_gradient().values, cotangent)
            } else {
                result matches Err(found) && found == QmbedError::InvalidOptions(
                    Reason::Text("ground-state energy cotangent must be finite"),
                )
            },
    {
        if !cotangent.is_finite() {
            return Err(QmbedError::InvalidOptions(Reason::Text("ground-state energy cotangent must be finite")));
        }
        let values: Vec<S> = scale_vector(&self.gradient.values, cotangent);
        Ok(ParameterGradient::new(self.gradient.schema.copied(), values))
    }

    /// The derivative of the energy along a direction.
    pub fn along(&self, direction: &ParameterDirection<S>) -> (result: Result<S>)
        requires
            parameters_fit(self.spec_gradient()),
            direction.valid(),
        ensures
            if direction@.schema == self.spec_gradient().schema {
                result == Ok::<S, QmbedError>(
                    linear::inner_product(
                        direction@.values,
                        self.spec_gradient().values,
                    ).spec_real_part(),
                )
            } else {
                result matches Err(found) && found == QmbedError::InvalidOptions(
                    Reason::Text("ground-state tangent uses a different parameter schema"),
                )
            },
    {
        if !direction.schema.same_as(&self.gradient.schema) {
            return Err(
                QmbedError::InvalidOptions(
                    Reason::Text("ground-state tangent uses a different parameter schema"),
                ),
            );
        }
        Ok(dotc(&direction.values, &self.gradient.values).real_part())
    }
}

/// A state that a rule hands out.
#[derive(Debug)]
pub struct State<B>(pub B);

impl<B> State<B> {
    /// The state itself.
    pub fn into_inner(self) -> (state: B)
        ensures
            state == self.0,
    {
        self.0
    }
}

} // verus!

use qmbed::ad::{
    apply_jvp, apply_vjp, energy_gradient, validate_ground_state_arguments, GradientStatus,
    GroundStateEnergyPullback, GroundStateOptions, ParameterDirection, ParameterDomain,
    ParameterSchema, ParameterValues, State,
};
use qmbed::error::{QmbedError, Reason};
use qmbed::family::{QuantumComponent, QuantumOperator};
use qmbed::ground_state::{ground_state_energy_gradient, Eigenpairs};
use qmbed::linear::{dotc, Gaussian, LinearOperator, MatrixFormat, Operator};
use qmbed::numbers::Whole;

fn g(re: i64, im: i64) -> Gaussian {
    Gaussian { re, im }
}

fn w(value: i64) -> Whole {
    Whole { value }
}

fn family() -> QuantumOperator<Gaussian> {
    let flip = Operator::from_triplets(2, 2, vec![(0, 1, g(1, 0)), (1, 0, g(1, 0))], MatrixFormat::Csc).unwrap();
    let level = Operator::from_triplets(2, 2, vec![(0, 0, g(1, 0)), (1, 1, g(-1, 0))], MatrixFormat::Csc).unwrap();
    QuantumOperator::new(vec![
        QuantumComponent::required("hop".to_string(), flip),
        QuantumComponent::required("level".to_string(), level),
    ])
    .unwrap()
}

#[test]
fn schemas_name_their_parameters() {
    let schema = ParameterSchema::for_operator(&family(), ParameterDomain::Real);
    assert_eq!(schema.len(), 2);
    assert_eq!(schema.index_of(&"level".to_string()), Some(1));
    assert_eq!(schema.index_of(&"gap".to_string()), None);
    assert_eq!(
        ParameterSchema::new(vec![String::new()], vec![ParameterDomain::Real]).err(),
        Some(QmbedError::InvalidOptions(Reason::ParameterName { index: 0 }))
    );
    assert_eq!(
        ParameterSchema::new(
            vec!["a".to_string(), "a".to_string()],
            vec![ParameterDomain::Real, ParameterDomain::Real]
        )
        .err(),
        Some(QmbedError::InvalidOptions(Reason::ParameterName { index: 1 }))
    );
    assert!(ParameterSchema::new(vec!["a".to_string()], vec![]).is_err());
}

#[test]
fn real_parameters_refuse_imaginary_parts() {
    assert!(ParameterValues::real_values(&family(), vec![g(1, 0), g(0, 1)]).is_err());
    let values = ParameterValues::complex(&family(), vec![g(1, 0), g(0, 1)]).unwrap();
    assert_eq!(values.get(&"level".to_string()), Some(g(0, 1)));
    assert!(ParameterValues::complex(&family(), vec![g(1, 0)]).is_err());
}

#[test]
fn tangents_are_exact() {
    let operator = family();
    let parameters = ParameterValues::real_values(&operator, vec![g(2, 0), g(3, 0)]).unwrap();
    let direction = parameters.direction(vec![g(1, 0), g(10, 0)]).unwrap();
    let jvp =
        apply_jvp(&operator, &parameters, &direction, &vec![g(1, 0), g(0, 0)], &vec![g(0, 0), g(1, 0)])
            .unwrap();
    assert_eq!(jvp.value, vec![g(3, 0), g(2, 0)]);
    assert_eq!(jvp.tangent, vec![g(12, 0), g(-2, 0)]);
    assert_eq!(jvp.diagnostics.status, GradientStatus::Reliable);
}

#[test]
fn pullback_is_the_adjoint_of_the_tangent_map() {
    let operator = family();
    let parameters = ParameterValues::real_values(&operator, vec![g(2, 0), g(3, 0)]).unwrap();
    let direction = parameters.direction(vec![g(4, 0), g(-1, 0)]).unwrap();
    let input = vec![g(1, 2), g(0, 1)];
    let change = vec![g(2, 0), g(1, -1)];
    let cotangent = vec![g(3, 1), g(-2, 5)];
    let jvp = apply_jvp(&operator, &parameters, &direction, &input, &change).unwrap();
    let (value, pullback) = apply_vjp(&operator, &parameters, &input).unwrap();
    assert_eq!(value, jvp.value);
    let back = pullback.backward(&cotangent).unwrap();
    let forward = dotc(&cotangent, &jvp.tangent).re;
    let states = dotc(&back.state, &change).re;
    let values = dotc(back.parameters.values(), direction.values()).re;
    assert_eq!(forward, states + values);
}

#[test]
fn directions_need_the_same_schema() {
    let operator = family();
    let parameters = ParameterValues::real_values(&operator, vec![g(2, 0), g(3, 0)]).unwrap();
    let other = ParameterSchema::new(
        vec!["x".to_string(), "y".to_string()],
        vec![ParameterDomain::Real, ParameterDomain::Real],
    )
    .unwrap();
    let direction = ParameterDirection::new(other, vec![g(1, 0), g(1, 0)]).unwrap();
    let input = vec![g(1, 0), g(0, 0)];
    assert_eq!(
        apply_jvp(&operator, &parameters, &direction, &input, &input).err(),
        Some(QmbedError::InvalidOptions(Reason::Text("parameter direction uses a different schema")))
    );
}

#[test]
fn energy_gradients_are_expectations() {
    let operator = family();
    let parameters = ParameterValues::real_values(&operator, vec![g(2, 0), g(3, 0)]).unwrap();
    let gradient = energy_gradient(&operator, &parameters, &vec![g(1, 0), g(2, 0)]).unwrap();
    assert_eq!(gradient.values(), &vec![g(4, 0), g(-3, 0)]);
    assert_eq!(gradient.get(&"hop".to_string()), Some(g(4, 0)));
    assert_eq!(
        energy_gradient(&operator, &parameters, &vec![g(1, 0)]).err(),
        Some(QmbedError::DimensionMismatch(Reason::Length { what: "eigenvector", found: 1, expected: 2 }))
    );
    let direction = parameters.direction(vec![g(1, 0), g(1, 0)]).unwrap();
    let pullback = GroundStateEnergyPullback::new(gradient, GradientStatus::Reliable).unwrap();
    assert_eq!(pullback.along(&direction), Ok(g(1, 0)));
    let scaled = pullback.apply(g(2, 0)).unwrap();
    assert_eq!(scaled.values(), &vec![g(8, 0), g(-6, 0)]);
    let again = energy_gradient(&operator, &parameters, &vec![g(1, 0), g(2, 0)]).unwrap();
    assert_eq!(
        GroundStateEnergyPullback::new(again, GradientStatus::IllConditioned).err(),
        Some(QmbedError::InvalidOptions(Reason::Text("ground-state derivative is not reliable")))
    );
}

#[test]
fn ground_state_arguments_are_checked() {
    let operator = family();
    let parameters = ParameterValues::real_values(&operator, vec![g(2, 0), g(3, 0)]).unwrap();
    let options = GroundStateOptions { eigenpairs: 2, smallest_algebraic: true };
    assert_eq!(validate_ground_state_arguments(&operator, &parameters, options, 1), Ok(()));
    let skew = Operator::from_triplets(2, 2, vec![(0, 1, g(3, 0))], MatrixFormat::Csc).unwrap();
    let open =
        QuantumOperator::new(vec![QuantumComponent::required("s".to_string(), skew)]).unwrap();
    let values = ParameterValues::real_values(&open, vec![g(1, 0)]).unwrap();
    assert_eq!(
        validate_ground_state_arguments(&open, &values, options, 1),
        Err(QmbedError::InvalidOptions(Reason::NotHermitian { component: 0 }))
    );
    let upper = GroundStateOptions { eigenpairs: 2, smallest_algebraic: false };
    assert!(validate_ground_state_arguments(&operator, &parameters, upper, 1).is_err());
    assert_eq!(State(3).into_inner(), 3);
    assert_eq!(operator.shape(), (2, 2));
    assert_eq!(family().component(&"hop".to_string()).unwrap().shape(), (2, 2));
}

#[test]
fn ground_state_gradients_carry_their_evidence() {
    let operator = family();
    let parameters = ParameterValues::real_values(&operator, vec![g(0, 0), g(3, 0)]).unwrap();
    let options = GroundStateOptions { eigenpairs: 2, smallest_algebraic: true };
    let pairs = |upper: i64, residual: i64| Eigenpairs {
        eigenvalues: vec![w(-3), w(upper)],
        eigenvectors: vec![vec![g(0, 0), g(1, 0)], vec![g(1, 0), g(0, 0)]],
        residuals: vec![w(0), w(residual)],
        iterations: 7,
    };
    let found = ground_state_energy_gradient(&operator, &parameters, options, 1, &pairs(3, 0)).unwrap();
    assert_eq!(found.energy, w(-3));
    assert_eq!(found.state, vec![g(0, 0), g(1, 0)]);
    assert_eq!(found.gradient.values(), &vec![g(0, 0), g(-1, 0)]);
    assert_eq!(found.diagnostics.status, GradientStatus::Reliable);
    assert_eq!(found.diagnostics.spectral_gap, Some(w(6)));
    assert_eq!(found.eigensolver_iterations, 7);
    let flat = ground_state_energy_gradient(&operator, &parameters, options, 1, &pairs(-3, 0)).unwrap();
    assert_eq!(flat.diagnostics.status, GradientStatus::NonDifferentiable);
    let rough = ground_state_energy_gradient(&operator, &parameters, options, 1, &pairs(3, 1)).unwrap();
    assert_eq!(rough.diagnostics.status, GradientStatus::NonDifferentiable);
    assert_eq!(rough.diagnostics.primal_residual, Some(w(1)));
    let one = GroundStateOptions { eigenpairs: 1, smallest_algebraic: true };
    assert_eq!(
        ground_state_energy_gradient(&operator, &parameters, one, 1, &pairs(3, 0)).err(),
        Some(QmbedError::InvalidOptions(
            Reason::Text("ground-state differentiation requires at least two eigenpairs for gap diagnostics")
        ))
    );
}

#[test]
fn schemas_take_a_domain_for_each_component() {
    let schema = ParameterSchema::for_operator_with_domains(
        &family(),
        vec![ParameterDomain::Complex, ParameterDomain::Real],
    )
    .unwrap();
    assert_eq!(schema.names(), &vec!["hop".to_string(), "level".to_string()]);
    assert!(ParameterSchema::for_operator_with_domains(&family(), vec![ParameterDomain::Real]).is_err());
}

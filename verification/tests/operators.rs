use qmbed::archive::OperatorArchive;
use qmbed::assembly::{assemble, BraKetTransition, Physical};
use qmbed::basis::Basis;
use qmbed::checks::AssemblyChecks;
use qmbed::block::{block_diag_hamiltonian, block_offsets, BlockOps};
use qmbed::crossing::apply_between_subspaces_batch;
use qmbed::error::{QmbedError, Reason};
use qmbed::family::{QuantumComponent, QuantumOperator};
use qmbed::interop::{apply_operator_batch, OperatorAction, PackedOperatorModel};
use qmbed::linear::{
    axpy, conjugate_vector, dotc, scale_vector, streamed_triplets, unit_vector, zero_vector,
    Gaussian, LinearOperator, MatrixFormat, Operator,
};
use qmbed::model::{Coupling, EdModel, OperatorSpec, PackedTermComponent};
use qmbed::projection::{ProjectedBlockOps, ProjectionLayout};
use qmbed::projector::BasisProjector;
use qmbed::spin::SpinBasis1D;
use qmbed::spinful::SpinfulFermionBasis1D;
use qmbed::time_operator::SteppedSchedule;
use qmbed::time_block::{DynamicBlockOps, ProjectedDynamicBlockOps, SteppedOperator, TimeDependentOperator};

fn g(re: i64, im: i64) -> Gaussian {
    Gaussian { re, im }
}

fn matrix(size: usize, entries: &[(usize, usize, i64)]) -> Operator<Gaussian> {
    let list = entries.iter().map(|&(row, column, value)| (row, column, g(value, 0))).collect();
    Operator::from_triplets(size, size, list, MatrixFormat::Csc).unwrap()
}

fn flip() -> Operator<Gaussian> {
    matrix(2, &[(0, 1, 1), (1, 0, 1)])
}

fn scaled_one(value: i64) -> Operator<Gaussian> {
    matrix(1, &[(0, 0, value)])
}

fn term(operator: &str, bonds: &[(i64, Vec<usize>)]) -> OperatorSpec<Gaussian> {
    let couplings = bonds
        .iter()
        .map(|(value, sites)| Coupling { coefficient: g(*value, 0), sites: sites.clone() })
        .collect();
    OperatorSpec::new(operator.to_string(), couplings)
}

fn exchange() -> Vec<OperatorSpec<Gaussian>> {
    vec![term("zz", &[(1, vec![0, 1])]), term("+-", &[(1, vec![0, 1]), (1, vec![1, 0])])]
}

fn column(rows: usize, row: usize) -> Operator<Gaussian> {
    Operator::from_triplets(rows, 1, vec![(row, 0, g(1, 0))], MatrixFormat::Csc).unwrap()
}

#[test]
fn vectors_add_and_pair() {
    let mut target = vec![g(1, 0), g(0, 1)];
    axpy(g(0, 1), &vec![g(1, 0), g(1, 0)], &mut target);
    assert_eq!(target, vec![g(1, 1), g(0, 2)]);
    assert_eq!(dotc(&vec![g(0, 1)], &vec![g(0, 1)]), g(1, 0));
    assert_eq!(conjugate_vector(&vec![g(1, 2)]), vec![g(1, -2)]);
    assert_eq!(scale_vector(&vec![g(1, 2)], g(2, 0)), vec![g(2, 4)]);
    assert_eq!(unit_vector::<Gaussian>(3, 1), vec![g(0, 0), g(1, 0), g(0, 0)]);
    assert_eq!(zero_vector::<Gaussian>(2), vec![g(0, 0); 2]);
}

#[test]
fn operators_apply_and_refuse_outside_entries() {
    let operator = flip();
    assert_eq!(operator.apply(&vec![g(1, 0), g(0, 1)]), Ok(vec![g(0, 1), g(1, 0)]));
    assert!(operator.is_hermitian(0));
    assert_eq!(operator.get(0, 1), g(1, 0));
    assert_eq!(
        Operator::from_triplets(1, 1, vec![(1, 0, g(1, 0))], MatrixFormat::Csc).err(),
        Some(QmbedError::DimensionMismatch(Reason::Text("an operator entry lies outside the operator shape")))
    );
    let skew = Operator::from_triplets(2, 2, vec![(0, 1, g(0, 1))], MatrixFormat::Csc).unwrap();
    assert_eq!(skew.apply_adjoint(&vec![g(1, 0), g(0, 0)]), Ok(vec![g(0, 0), g(0, -1)]));
    assert!(!skew.is_hermitian(0));
    let squeezed = operator.projected_by(&column(2, 0)).unwrap();
    assert_eq!(squeezed.get(0, 0), g(0, 0));
}

#[test]
fn block_matrix_acts_like_the_blocks() {
    let blocks = BlockOps::new(vec![flip(), matrix(2, &[(0, 0, 3), (1, 1, 5)])]).unwrap();
    assert_eq!(blocks.shape(), (4, 4));
    let input = vec![g(1, 0), g(2, 0), g(3, 0), g(4, 0)];
    let direct = blocks.apply(&input).unwrap();
    assert_eq!(direct, vec![g(2, 0), g(1, 0), g(9, 0), g(20, 0)]);
    let whole = blocks.materialize(MatrixFormat::Csc).unwrap();
    assert_eq!(
        blocks.apply(&vec![g(1, 0)]).err(),
        Some(QmbedError::DimensionMismatch(Reason::Length {
            what: "input vector",
            found: 1,
            expected: whole.columns(),
        }))
    );
    assert_eq!(whole.apply(&input), Ok(direct));
    let joined = block_diag_hamiltonian(&vec![flip(), scaled_one(7)], MatrixFormat::Csc).unwrap();
    assert_eq!(joined.get(2, 2), g(7, 0));
    assert_eq!(block_offsets(&vec![(2, 2), (3, 3)]), Ok(vec![0, 2, 5]));
}

#[test]
fn block_refusals() {
    let none: Vec<Operator<Gaussian>> = vec![];
    assert_eq!(
        BlockOps::new(none).err(),
        Some(QmbedError::InvalidOptions(Reason::Text("at least one operator block is required")))
    );
    assert_eq!(
        block_offsets(&vec![(2, 3)]),
        Err(QmbedError::DimensionMismatch(Reason::Text("block-diagonal operators require square blocks")))
    );
    assert_eq!(
        block_offsets(&vec![(usize::MAX, usize::MAX), (1, 1)]),
        Err(QmbedError::UnsupportedBackend(Reason::Text("block dimension overflow")))
    );
    let mut blocks = BlockOps::new(vec![flip()]).unwrap();
    assert_eq!(blocks.push(scaled_one(2)), Ok(()));
    assert_eq!(blocks.blocks(), 2);
}

#[test]
fn projection_layouts_lift_and_project() {
    let shapes = vec![(1, 1), (1, 1)];
    let layout = ProjectionLayout::new(&shapes, vec![column(3, 2), column(3, 0)], 1).unwrap();
    assert_eq!(layout.full_dimension(), 3);
    assert_eq!(layout.block_dimension(), 2);
    let lifted = layout.lift(&vec![g(5, 0), g(7, 0)]).unwrap();
    assert_eq!(lifted, vec![g(7, 0), g(0, 0), g(5, 0)]);
    assert_eq!(layout.project(&lifted), Ok(vec![g(5, 0), g(7, 0)]));
    assert_eq!(layout.completeness_residual(), Ok(1));
    let full = ProjectionLayout::new(&shapes, vec![column(2, 1), column(2, 0)], 1).unwrap();
    assert_eq!(full.completeness_residual(), Ok(0));
}

#[test]
fn projection_refusals() {
    let long = Operator::from_triplets(2, 1, vec![(0, 0, g(2, 0))], MatrixFormat::Csc).unwrap();
    assert_eq!(
        ProjectionLayout::new(&vec![(1, 1)], vec![long], 1).err(),
        Some(QmbedError::InvalidOptions(Reason::NotIsometric {
            target: 0,
            target_column: 0,
            source: 0,
            source_column: 0
        }))
    );
    assert_eq!(
        ProjectionLayout::new(&vec![(2, 2)], vec![column(3, 0)], 1).err(),
        Some(QmbedError::DimensionMismatch(Reason::Shape { index: 0, found: (3, 1), expected: (3, 2) }))
    );
}

#[test]
fn projected_blocks_assemble_in_the_parent() {
    let blocks =
        ProjectedBlockOps::new(vec![scaled_one(3), scaled_one(4)], vec![column(2, 1), column(2, 0)], 1)
            .unwrap();
    let whole = blocks.materialize(MatrixFormat::Csc).unwrap();
    assert_eq!(
        blocks.apply(&vec![g(1, 0)]).err(),
        Some(QmbedError::DimensionMismatch(Reason::Length {
            what: "input vector",
            found: 1,
            expected: whole.columns(),
        }))
    );
    assert_eq!(whole.get(0, 0), g(4, 0));
    assert_eq!(whole.get(1, 1), g(3, 0));
    assert_eq!(blocks.apply(&vec![g(1, 0), g(1, 0)]), Ok(vec![g(4, 0), g(3, 0)]));
    assert_eq!(blocks.blocks(), 2);
}

#[test]
fn stepped_blocks_follow_the_clock() {
    let stepped = SteppedOperator::new(vec![scaled_one(1), scaled_one(10)]).unwrap();
    assert_eq!(stepped.apply_at(0, &vec![g(2, 0)]), Ok(vec![g(2, 0)]));
    assert_eq!(stepped.apply_at(9, &vec![g(2, 0)]), Ok(vec![g(20, 0)]));
    let blocks = DynamicBlockOps::new(vec![
        SteppedOperator::new(vec![scaled_one(1), scaled_one(10)]).unwrap(),
        SteppedOperator::new(vec![flip()]).unwrap(),
    ])
    .unwrap();
    let input = vec![g(1, 0), g(2, 0), g(3, 0)];
    assert_eq!(blocks.apply_at(1, &input), Ok(vec![g(10, 0), g(3, 0), g(2, 0)]));
    assert_eq!(blocks.materialize(0, MatrixFormat::Csc).unwrap().get(0, 0), g(1, 0));
    let projected = ProjectedDynamicBlockOps::new(
        vec![SteppedOperator::new(vec![scaled_one(1), scaled_one(10)]).unwrap()],
        vec![column(2, 1)],
        1,
    )
    .unwrap();
    assert_eq!(projected.apply_at(1, &vec![g(3, 0), g(4, 0)]), Ok(vec![g(0, 0), g(40, 0)]));
    let none: Vec<Operator<Gaussian>> = vec![];
    assert!(SteppedOperator::new(none).is_none());
}

#[test]
fn families_add_their_components() {
    let family = QuantumOperator::new(vec![
        QuantumComponent::required("a".to_string(), flip()),
        QuantumComponent::with_default("b".to_string(), matrix(2, &[(0, 0, 1)]), g(4, 0)),
    ])
    .unwrap();
    let evaluated = family.evaluate(&vec![("a".to_string(), g(3, 0))], MatrixFormat::Csc).unwrap();
    assert_eq!(evaluated.get(0, 1), g(3, 0));
    assert_eq!(evaluated.get(0, 0), g(4, 0));
    assert_eq!(family.evaluate(&vec![], MatrixFormat::Csc).err(), Some(QmbedError::InvalidOptions(Reason::MissingParameter { component: 0 })));
    assert_eq!(
        family.evaluate(&vec![("a".to_string(), g(1, 0)), ("c".to_string(), g(1, 0))], MatrixFormat::Csc).err(),
        Some(QmbedError::InvalidOptions(Reason::UnknownParameter { index: 1 }))
    );
    assert_eq!(family.component(&"z".to_string()).err(), Some(QmbedError::InvalidOptions(Reason::UnknownComponent)));
    let none: Vec<QuantumComponent<Gaussian>> = vec![];
    assert_eq!(
        QuantumOperator::new(none).err(),
        Some(QmbedError::InvalidOptions(Reason::Text("an operator family requires at least one component")))
    );
    assert_eq!(
        QuantumOperator::new(vec![QuantumComponent::required(String::new(), flip())]).err(),
        Some(QmbedError::InvalidOptions(Reason::Text("component names must be nonempty and unique")))
    );
}

#[test]
fn operator_models_materialize_and_apply() {
    let model = PackedOperatorModel::with_components(
        flip(),
        vec![QuantumComponent::with_default("d".to_string(), matrix(2, &[(0, 0, 1)]), g(2, 0))],
    )
    .unwrap();
    assert_eq!(model.dimension(), 2);
    assert_eq!(model.component_names(), vec!["d".to_string()]);
    let parameters = vec![("d".to_string(), g(5, 0))];
    let input = vec![g(1, 0), g(1, 0)];
    let whole = model.materialize(&parameters, MatrixFormat::Csc).unwrap();
    assert_eq!(whole.apply(&input), model.apply(&parameters, &input));
    assert_eq!(model.apply(&parameters, &input), Ok(vec![g(6, 0), g(1, 0)]));
    assert!(model.hermitian_operator(&parameters, MatrixFormat::Dense, 0).is_ok());
    assert_eq!(
        model.hermitian_operator(&vec![("d".to_string(), g(0, 1))], MatrixFormat::Dense, 0).err(),
        Some(QmbedError::NonHermitian)
    );
    let fixed = PackedOperatorModel::new(flip()).unwrap();
    assert_eq!(
        fixed.materialize(&vec![("x".to_string(), g(1, 0))], MatrixFormat::Csc).err(),
        Some(QmbedError::InvalidOptions(Reason::UnknownParameter { index: 0 }))
    );
    let wide = Operator::from_triplets(2, 1, vec![(0, 0, g(1, 0))], MatrixFormat::Csc).unwrap();
    assert_eq!(
        PackedOperatorModel::new(wide).err(),
        Some(QmbedError::DimensionMismatch(Reason::Text("a persistent operator model must be square")))
    );
}

#[test]
fn algebraic_views_of_an_operator() {
    let operator = Operator::from_triplets(2, 2, vec![(0, 1, g(0, 1))], MatrixFormat::Csc).unwrap();
    let inputs = vec![vec![g(1, 0), g(2, 0)]];
    let image = |action| apply_operator_batch(&operator, &inputs, action).unwrap().remove(0);
    assert_eq!(image(OperatorAction::Normal), vec![g(0, 2), g(0, 0)]);
    assert_eq!(image(OperatorAction::Conjugate), vec![g(0, -2), g(0, 0)]);
    assert_eq!(image(OperatorAction::Transpose), vec![g(0, 0), g(0, 1)]);
    assert_eq!(image(OperatorAction::Adjoint), vec![g(0, 0), g(0, -1)]);
    assert_eq!(
        apply_operator_batch(&operator, &vec![vec![g(1, 0)]], OperatorAction::Normal).err(),
        Some(QmbedError::DimensionMismatch(Reason::Length {
            what: "operator action input",
            found: 1,
            expected: 2
        }))
    );
}

#[test]
fn block_families_unite_their_components() {
    let first = PackedOperatorModel::with_components(
        scaled_one(1),
        vec![QuantumComponent::required("u".to_string(), scaled_one(2))],
    )
    .unwrap();
    let second = PackedOperatorModel::with_components(
        scaled_one(3),
        vec![QuantumComponent::required("v".to_string(), scaled_one(4))],
    )
    .unwrap();
    let joined = PackedOperatorModel::from_blocks(&vec![first, second], MatrixFormat::Csc).unwrap();
    assert_eq!(joined.component_names().len(), 2);
    let whole = joined
        .materialize(
            &vec![("u".to_string(), g(10, 0)), ("v".to_string(), g(100, 0))],
            MatrixFormat::Csc,
        )
        .unwrap();
    assert_eq!(whole.get(0, 0), g(21, 0));
    assert_eq!(whole.get(1, 1), g(403, 0));
    let part = joined.projected_by(&column(2, 1)).unwrap();
    assert_eq!(part.dimension(), 1);
}

#[test]
fn inconsistent_block_defaults_are_refused() {
    let block = |value: i64| {
        PackedOperatorModel::with_components(
            scaled_one(1),
            vec![QuantumComponent::with_default("u".to_string(), scaled_one(2), g(value, 0))],
        )
        .unwrap()
    };
    assert!(PackedOperatorModel::from_blocks(&vec![block(1), block(1)], MatrixFormat::Csc).is_ok());
    assert_eq!(
        PackedOperatorModel::from_blocks(&vec![block(1), block(2)], MatrixFormat::Csc).err(),
        Some(QmbedError::InvalidOptions(Reason::InconsistentDefault { block: 1, component: 0 }))
    );
}

#[test]
fn local_terms_become_a_matrix() {
    let basis = SpinBasis1D::builder(2).up(1).pauli(true).build().unwrap();
    let operator = assemble(&basis, &exchange(), AssemblyChecks::all(), MatrixFormat::Csc).unwrap();
    assert_eq!(operator.get(0, 0), g(-1, 0));
    assert_eq!(operator.get(1, 1), g(-1, 0));
    assert_eq!(operator.get(0, 1), g(1, 0));
    assert_eq!(operator.get(1, 0), g(1, 0));
    assert!(operator.is_hermitian(0));
    assert_eq!(
        assemble(&basis, &vec![term("zz", &[(1, vec![0, 5])])], AssemblyChecks::all(), MatrixFormat::Csc).err(),
        Some(QmbedError::InvalidSite { site: 5, sites: 2 })
    );
}

#[test]
fn assembly_asks_what_its_checks_say() {
    let basis = SpinBasis1D::builder(2).up(1).pauli(true).build().unwrap();
    let raise = vec![term("+", &[(1, vec![0])])];
    assert_eq!(
        assemble(&basis, &raise, AssemblyChecks::all(), MatrixFormat::Csr).err(),
        Some(QmbedError::IncompatibleSymmetry(
            "an operator term leaves the particle sectors of the basis"
        ))
    );
    let dropped = assemble(&basis, &raise, AssemblyChecks::none(), MatrixFormat::Csr).unwrap();
    assert_eq!(dropped.triplets().len(), 0);
    assert_eq!(dropped.format(), MatrixFormat::Csr);
    let hop = vec![term("+-", &[(1, vec![0, 1])])];
    assert_eq!(
        assemble(&basis, &hop, AssemblyChecks::all(), MatrixFormat::Csc).err(),
        Some(QmbedError::NonHermitian)
    );
    let kept = AssemblyChecks { hermiticity: false, ..AssemblyChecks::all() };
    assert!(assemble(&basis, &hop, kept, MatrixFormat::Csc).is_ok());
    let spinful = SpinfulFermionBasis1D::builder(2).particles(1, 1).build().unwrap();
    let exchange = vec![term("+-", &[(1, vec![0, 1])])];
    assert!(assemble(&spinful, &exchange, kept, MatrixFormat::Csc).is_ok());
    let flip = vec![term("+-", &[(1, vec![0, 2])])];
    assert_eq!(
        assemble(&spinful, &flip, kept, MatrixFormat::Csc).err(),
        Some(QmbedError::IncompatibleSymmetry(
            "an operator term leaves the particle sectors of the basis"
        ))
    );
    let model = EdModel::new(basis, hop);
    assert_eq!(model.materialize(MatrixFormat::Csc).err(), Some(QmbedError::NonHermitian));
    let model = model.with_checks(AssemblyChecks::none());
    assert!(model.materialize(MatrixFormat::Csc).is_ok());
    assert_eq!(model.checks(), AssemblyChecks::none());
}

#[test]
fn models_assemble_and_act() {
    let basis = SpinBasis1D::builder(2).up(1).pauli(true).build().unwrap();
    let model = EdModel::new(basis, exchange())
        .with_components(vec![PackedTermComponent::with_default(
            "field".to_string(),
            vec![term("z", &[(1, vec![0])])],
            g(2, 0),
        )])
        .unwrap();
    assert_eq!(model.dimension(), 2);
    assert_eq!(model.states(), Ok(vec![0b01, 0b10]));
    assert_eq!(model.materialized(MatrixFormat::Csc).unwrap().get(0, 0), g(-1, 0));
    assert_eq!(model.materialize(MatrixFormat::Csc).unwrap().get(0, 0), g(1, 0));
    let basis = SpinBasis1D::builder(2).up(1).pauli(true).build().unwrap();
    let required = EdModel::new(basis, exchange())
        .with_components(vec![PackedTermComponent::required(
            "field".to_string(),
            vec![term("z", &[(1, vec![0])])],
        )])
        .unwrap();
    assert!(required.materialized(MatrixFormat::Csc).is_ok());
    assert_eq!(
        required.materialize(MatrixFormat::Csc).err(),
        Some(QmbedError::InvalidOptions(Reason::MissingParameter { component: 0 }))
    );
    let family = model.operator_model(MatrixFormat::Csc).unwrap();
    assert_eq!(family.component_names(), vec!["field".to_string()]);
    let whole = model.materialize_with(&vec![], MatrixFormat::Csc).unwrap();
    assert_eq!(whole.get(0, 0), g(1, 0));
    assert_eq!(whole.get(1, 1), g(-3, 0));
    let images = model
        .apply_terms_batch(&exchange(), &vec![vec![g(1, 0), g(0, 0)]], OperatorAction::Normal)
        .unwrap();
    assert_eq!(images, vec![vec![g(-1, 0), g(1, 0)]]);
}

#[test]
fn raw_transitions_leave_the_sector() {
    let basis = SpinBasis1D::builder(2).up(1).pauli(true).build().unwrap();
    assert_eq!(basis.apply_local_unreduced_transitions(0b01, "+", &[1]).unwrap().len(), 1);
    let model: EdModel<SpinBasis1D, Gaussian> = EdModel::new(basis, vec![]);
    let found = model.bra_ket_terms(&vec![term("+", &[(3, vec![1])])], &vec![0b01, 0b10]).unwrap();
    assert_eq!(
        found,
        vec![
            vec![BraKetTransition { bra: 0b11, ket: 0b01, matrix_element: g(3, 0) }],
            vec![]
        ]
    );
}

#[test]
fn site_permutations_compose() {
    let spec = term("zz", &[(1, vec![0, 2])]);
    let once = spec.with_site_permutation(&vec![1, 2, 0]).unwrap();
    assert_eq!(once.couplings()[0].sites, vec![1, 0]);
    let twice = once.with_site_permutation(&vec![1, 2, 0]).unwrap();
    let direct = spec.with_site_permutation(&vec![2, 0, 1]).unwrap();
    assert_eq!(twice.couplings()[0].sites, direct.couplings()[0].sites);
    assert!(spec.with_site_permutation(&vec![0]).is_err());
}

#[test]
fn relabeled_models_relabel_new_terms() {
    let basis = SpinBasis1D::builder(2).pauli(true).build().unwrap();
    let model: EdModel<SpinBasis1D, Gaussian> =
        EdModel::new(basis, vec![]).with_site_permutation(&vec![1, 0]).unwrap();
    let operator = model.assemble_terms(&vec![term("z", &[(1, vec![0])])], AssemblyChecks::all(), MatrixFormat::Csc).unwrap();
    assert_eq!(operator.get(0b10, 0b10), g(1, 0));
    assert_eq!(operator.get(0b01, 0b01), g(-1, 0));
    let other: EdModel<SpinBasis1D, Gaussian> =
        EdModel::new(SpinBasis1D::builder(2).build().unwrap(), vec![]);
    assert_eq!(
        model.ensure_same_site_convention(&other),
        Err(QmbedError::InvalidOptions(
            Reason::Text("models must use the same site permutation for cross-basis operations")
        ))
    );
    let third: EdModel<SpinBasis1D, Gaussian> =
        EdModel::new(SpinBasis1D::builder(2).build().unwrap(), vec![]);
    assert_eq!(
        third.with_site_permutation(&vec![0, 0]).err(),
        Some(QmbedError::InvalidOptions(Reason::Text("site permutation must be bijective")))
    );
}

#[test]
fn scattered_vectors_stand_at_their_states() {
    let basis = SpinBasis1D::builder(2).up(1).build().unwrap();
    let model: EdModel<SpinBasis1D, Gaussian> = EdModel::new(basis, vec![]);
    assert_eq!(
        model.scatter_state_vector(&vec![g(5, 0), g(6, 0)], 4),
        Ok(vec![g(0, 0), g(5, 0), g(6, 0), g(0, 0)])
    );
    let density = model.scatter_density(&vec![g(1, 0), g(2, 0), g(3, 0), g(4, 0)], 4).unwrap();
    assert_eq!(density[4 + 2], g(2, 0));
    assert_eq!(density[8 + 1], g(3, 0));
    assert_eq!(
        model.scatter_state_vector(&vec![g(5, 0)], 4).err(),
        Some(QmbedError::DimensionMismatch(Reason::Text("state vector does not match the basis dimension")))
    );
    assert!(model.scatter_state_vector(&vec![g(5, 0), g(6, 0)], 2).is_err());
}

#[test]
fn embeddings_lift_and_project_back() {
    let parent: EdModel<SpinBasis1D, Gaussian> =
        EdModel::new(SpinBasis1D::builder(2).build().unwrap(), vec![]);
    let sector: EdModel<SpinBasis1D, Gaussian> =
        EdModel::new(SpinBasis1D::builder(2).up(1).build().unwrap(), vec![]);
    let projector = sector.embedding_to(&parent).unwrap();
    assert_eq!(projector.source_dimension(), 4);
    assert_eq!(projector.reduced_dimension(), 2);
    let reduced = vec![vec![g(5, 0), g(6, 0)]];
    let lifted = projector.lift_batch(&reduced).unwrap();
    assert_eq!(lifted, vec![vec![g(0, 0), g(5, 0), g(6, 0), g(0, 0)]]);
    assert_eq!(projector.project_batch(&lifted), Ok(reduced));
    let images = sector.reduction_images(&vec![0b01, 0b11]).unwrap();
    assert!(images[0].is_some());
    assert!(images[1].is_none());
}

#[test]
fn cross_basis_batches() {
    let parent: EdModel<SpinBasis1D, Gaussian> =
        EdModel::new(SpinBasis1D::builder(2).build().unwrap(), vec![]);
    let sector: EdModel<SpinBasis1D, Gaussian> =
        EdModel::new(SpinBasis1D::builder(2).up(2).momentum(0).build().unwrap(), vec![]);
    let projector = sector.projector_to(&parent).unwrap();
    assert_eq!(projector.reduced_dimension(), 1);
    let lifted = sector.lift_to_batch(&parent, &vec![vec![g(2, 0)]]).unwrap();
    assert_eq!(lifted, vec![vec![g(0, 0), g(0, 0), g(0, 0), g(2, 0)]]);
    let projected = sector.project_from_batch(&parent, &lifted).unwrap();
    assert_eq!(projected, vec![vec![g(2, 0)]]);
    assert!(sector.lift_to_batch(&parent, &vec![vec![g(1, 0), g(0, 0)]]).is_err());
    // the states of an orbit of two have the amplitude 1/√2, which is no Gaussian integer
    let pairs: EdModel<SpinBasis1D, Gaussian> =
        EdModel::new(SpinBasis1D::builder(2).momentum(0).build().unwrap(), vec![]);
    assert_eq!(
        pairs.projector_to(&parent).err(),
        Some(QmbedError::UnsupportedBackend(Reason::Text("the scalars do not hold an amplitude exactly")))
    );
}

#[test]
fn operators_act_between_subspaces() {
    let narrow = BasisProjector::from_columns(2, &vec![vec![(0, g(1, 0))]]).unwrap();
    let images =
        apply_between_subspaces_batch(Some(&narrow), &flip(), None, &vec![vec![g(3, 0)]]).unwrap();
    assert_eq!(images, vec![vec![g(0, 0), g(3, 0)]]);
    let closed =
        apply_between_subspaces_batch(Some(&narrow), &flip(), Some(&narrow), &vec![vec![g(3, 0)]])
            .unwrap();
    assert_eq!(closed, vec![vec![g(0, 0)]]);
    assert_eq!(
        apply_between_subspaces_batch(Some(&narrow), &scaled_one(1), None, &vec![vec![g(3, 0)]])
            .err(),
        Some(QmbedError::DimensionMismatch(
            Reason::Text("source projector rows do not match the source parent basis")
        ))
    );
    assert_eq!(
        apply_between_subspaces_batch(None, &scaled_one(1), Some(&narrow), &vec![vec![g(3, 0)]])
            .err(),
        Some(QmbedError::DimensionMismatch(
            Reason::Text("target projector rows do not match the target parent basis")
        ))
    );
}

#[test]
fn projectors_sort_and_check_their_rows() {
    let projector =
        BasisProjector::from_columns(3, &vec![vec![(2, g(1, 0)), (0, g(2, 0))]]).unwrap();
    assert_eq!(projector.lifted(&vec![g(1, 0)]), Ok(vec![g(2, 0), g(0, 0), g(1, 0)]));
    assert_eq!(
        BasisProjector::from_columns(1, &vec![vec![(1, g(1, 0))]]).err(),
        Some(QmbedError::DimensionMismatch(
            Reason::Text("projector contains an invalid parent-space row or coefficient")
        ))
    );
    assert_eq!(
        projector.lifted(&vec![]),
        Err(QmbedError::DimensionMismatch(Reason::Text("projector input or output length does not match")))
    );
    let narrow = BasisProjector::from_columns(2, &vec![vec![(0, g(1, 0))]]).unwrap();
    assert_eq!(narrow.symmetry_leakage_norm(&flip()), Ok(1));
    assert_eq!(narrow.preserves_operator_symmetry(&matrix(2, &[(0, 0, 3)]), 0), Ok(true));
    assert_eq!(narrow.preserves_operator_symmetry(&flip(), 0), Ok(false));
    assert_eq!(
        narrow.lift_density(&vec![g(7, 0)]),
        Ok(vec![g(7, 0), g(0, 0), g(0, 0), g(0, 0)])
    );
}

#[test]
fn streamed_entries_match_the_action() {
    let blocks = BlockOps::new(vec![flip(), scaled_one(4)]).unwrap();
    let entries = streamed_triplets(&blocks).unwrap();
    let rebuilt = Operator::from_triplets(3, 3, entries, MatrixFormat::Csc).unwrap();
    let input = vec![g(1, 0), g(2, 0), g(3, 0)];
    assert_eq!(rebuilt.apply(&input), blocks.apply(&input));
    assert_eq!(SpinBasis1D::builder(1).build().unwrap().len(), 2);
}

#[test]
fn schedules_drive_a_family() {
    let model = PackedOperatorModel::with_components(
        flip(),
        vec![QuantumComponent::required("d".to_string(), matrix(2, &[(0, 0, 1)]))],
    )
    .unwrap();
    let input = vec![g(1, 0), g(1, 0)];
    let plain =
        model.time_operator(SteppedSchedule { steps: vec![vec![g(2, 0)], vec![g(5, 0)]] }).unwrap();
    assert_eq!(plain.shape(), (2, 2));
    assert_eq!(plain.apply_at(0, &input), Ok(vec![g(3, 0), g(1, 0)]));
    let double = model
        .time_operator_scaled(g(2, 0), SteppedSchedule { steps: vec![vec![g(2, 0)], vec![g(5, 0)]] })
        .unwrap();
    assert_eq!(double.apply_at(7, &input), Ok(vec![g(12, 0), g(2, 0)]));
    let short = model.time_operator(SteppedSchedule { steps: vec![vec![]] }).unwrap();
    assert_eq!(
        short.apply_at(0, &input),
        Err(QmbedError::InvalidOptions(
            Reason::Text("time-dependent coefficients must be finite, one for each component")
        ))
    );
    let none: SteppedSchedule<Gaussian> = SteppedSchedule { steps: vec![] };
    assert_eq!(
        model.time_operator(none).unwrap().apply_at(0, &input),
        Err(QmbedError::InvalidOptions(Reason::Text("a schedule requires at least one step")))
    );
    let fixed = PackedOperatorModel::new(flip()).unwrap();
    assert_eq!(
        fixed.time_operator(SteppedSchedule { steps: vec![vec![]] }).err(),
        Some(QmbedError::InvalidOptions(
            Reason::Text("time-dependent evolution requires at least one operator component")
        ))
    );
}

#[test]
fn families_survive_their_archive() {
    let family = || {
        PackedOperatorModel::parameterized(vec![
            QuantumComponent::required("x".to_string(), flip()),
            QuantumComponent::with_default("z".to_string(), matrix(2, &[(0, 0, 3)]), g(2, 1)),
        ], MatrixFormat::Csc)
        .unwrap()
    };
    let chosen = vec![("x".to_string(), MatrixFormat::Dia)];
    let archive = family().component_archive(&chosen).unwrap();
    assert_eq!(archive.components()[0].operator().format(), MatrixFormat::Dia);
    assert_eq!(archive.components()[1].operator().format(), MatrixFormat::Csc);
    assert_eq!(
        family().component_archive(&vec![("y".to_string(), MatrixFormat::Dia)]).err(),
        Some(QmbedError::InvalidOptions(Reason::UnknownComponent))
    );
    let archive = family().component_archive(&vec![]).unwrap();
    assert_eq!(archive.components().len(), 2);
    let back = PackedOperatorModel::from_component_archive(archive, MatrixFormat::Dense).unwrap();
    assert_eq!(back.static_part().format(), MatrixFormat::Dense);
    assert_eq!(back.static_part().triplets().len(), 0);
    assert_eq!(back.dimension(), 2);
    let parts = back.parameterized_part().unwrap().components();
    assert_eq!(parts[0].name(), "x");
    assert_eq!(parts[0].default(), None);
    assert_eq!(parts[0].operator().triplets(), flip().triplets());
    assert_eq!(parts[1].name(), "z");
    assert_eq!(parts[1].default(), Some(g(2, 1)));
    assert_eq!(
        PackedOperatorModel::new(flip()).unwrap().component_archive(&vec![]).err(),
        Some(QmbedError::InvalidOptions(
            Reason::Text("the named-component archive cannot omit a nonzero fixed operator")
        ))
    );
    assert_eq!(
        PackedOperatorModel::new(matrix(2, &[])).unwrap().component_archive(&vec![]).err(),
        Some(QmbedError::InvalidOptions(
            Reason::Text("an operator archive requires at least one named component")
        ))
    );
    let mut twice = OperatorArchive::new();
    twice.insert("x".to_string(), flip(), None);
    twice.insert("x".to_string(), flip(), None);
    assert_eq!(
        PackedOperatorModel::from_component_archive(twice, MatrixFormat::Csc).err(),
        Some(QmbedError::InvalidOptions(Reason::Text("component names must be nonempty and unique")))
    );
}

#[test]
fn terms_shift_between_sectors() {
    let lower: EdModel<SpinBasis1D, Gaussian> =
        EdModel::new(SpinBasis1D::builder(3).up(1).build().unwrap(), vec![]);
    let upper: EdModel<SpinBasis1D, Gaussian> =
        EdModel::new(SpinBasis1D::builder(3).up(2).build().unwrap(), vec![]);
    let raise = vec![term("+", &[(1, vec![0]), (1, vec![1]), (1, vec![2])])];
    let inputs = vec![vec![g(1, 0), g(0, 0), g(0, 0)], vec![g(0, 0), g(0, 0), g(2, 0)]];
    assert_eq!(
        upper.apply_terms_from_batch(&lower, &raise, &inputs),
        Ok(vec![vec![g(1, 0), g(1, 0), g(0, 0)], vec![g(0, 0), g(2, 0), g(2, 0)]])
    );
    assert_eq!(
        lower.apply_terms_from_batch(&upper, &raise, &inputs),
        Ok(vec![vec![g(0, 0); 3], vec![g(0, 0); 3]])
    );
    let short = vec![vec![g(1, 0)]];
    assert_eq!(
        upper.apply_terms_from_batch(&lower, &raise, &short),
        Err(QmbedError::DimensionMismatch(Reason::Length {
            what: "operator action input",
            found: 1,
            expected: 3
        }))
    );
    let mixed = vec![inputs[0].clone(), vec![g(1, 0); 4], vec![]];
    assert_eq!(
        upper.apply_terms_from_batch(&lower, &raise, &mixed),
        Err(QmbedError::DimensionMismatch(Reason::Length {
            what: "operator action input",
            found: 4,
            expected: 3
        }))
    );
    let unknown = vec![term("q", &[(1, vec![0])])];
    assert_eq!(upper.apply_terms_from_batch(&lower, &unknown, &vec![]), Ok(vec![]));
    assert!(upper.apply_terms_from_batch(&lower, &unknown, &inputs).is_err());
    let relabeled = EdModel::new(SpinBasis1D::builder(3).up(2).build().unwrap(), vec![])
        .with_site_permutation(&vec![1, 0, 2])
        .unwrap();
    assert_eq!(
        relabeled.apply_terms_from_batch(&lower, &raise, &inputs),
        Err(QmbedError::InvalidOptions(
            Reason::Text("models must use the same site permutation for cross-basis operations")
        ))
    );
}

#[test]
fn terms_act_between_subspaces() {
    let parent: EdModel<SpinBasis1D, Gaussian> =
        EdModel::new(SpinBasis1D::builder(2).build().unwrap(), vec![]);
    let sector: EdModel<SpinBasis1D, Gaussian> =
        EdModel::new(SpinBasis1D::builder(2).up(1).build().unwrap(), vec![]);
    let projector = sector.embedding_to(&parent).unwrap();
    let mut reduced = vec![g(9, 0); 2];
    let spread = vec![g(1, 0), g(2, 0), g(0, 3), g(4, 0)];
    assert_eq!(projector.project(&spread, &mut reduced), Ok(()));
    assert_eq!(reduced, vec![g(2, 0), g(0, 3)]);
    let mut long = vec![g(9, 0); 3];
    assert_eq!(
        projector.project(&spread, &mut long),
        Err(QmbedError::DimensionMismatch(Reason::Text("projector input or output length does not match")))
    );
    assert_eq!(long, vec![g(9, 0); 3]);
    let swap = vec![term("+-", &[(1, vec![1, 0]), (1, vec![0, 1])])];
    let inputs = vec![vec![g(3, 0), g(4, 0)]];
    assert_eq!(
        EdModel::apply_terms_between_subspaces_batch(
            &parent,
            Some(&projector),
            &parent,
            Some(&projector),
            &swap,
            &inputs
        ),
        Ok(vec![vec![g(4, 0), g(3, 0)]])
    );
    assert_eq!(
        EdModel::apply_terms_between_subspaces_batch(
            &sector,
            Some(&projector),
            &parent,
            None,
            &swap,
            &inputs
        ),
        Err(QmbedError::DimensionMismatch(
            Reason::Text("source projector rows do not match the source parent basis")
        ))
    );
    assert_eq!(
        EdModel::apply_terms_between_subspaces_batch(
            &parent,
            Some(&projector),
            &parent,
            None,
            &swap,
            &vec![vec![g(3, 0)]]
        ),
        Err(QmbedError::DimensionMismatch(Reason::Text("projector input or output length does not match")))
    );
}

#[test]
fn model_families_act_on_batches() {
    let basis = SpinBasis1D::builder(2).build().unwrap();
    let model = EdModel::new(basis, vec![term("+-", &[(1, vec![1, 0])])])
        .with_components(vec![PackedTermComponent::with_default(
            "d".to_string(),
            vec![term("+", &[(1, vec![0])])],
            g(2, 0),
        )])
        .unwrap()
        .with_checks(AssemblyChecks::none());
    let inputs = vec![vec![g(1, 0), g(1, 0), g(0, 0), g(0, 0)]];
    assert_eq!(
        model.apply_batch(&inputs, OperatorAction::Normal),
        Ok(vec![vec![g(0, 0), g(2, 0), g(1, 0), g(0, 0)]])
    );
    assert_eq!(
        model.apply_batch_with(
            &vec![("d".to_string(), g(5, 0))],
            &inputs,
            OperatorAction::Normal
        ),
        Ok(vec![vec![g(0, 0), g(5, 0), g(1, 0), g(0, 0)]])
    );
    let plain = EdModel::new(
        SpinBasis1D::builder(2).build().unwrap(),
        vec![term("+-", &[(1, vec![1, 0])])],
    )
    .with_checks(AssemblyChecks::none());
    assert_eq!(
        plain.apply_batch_with(
            &vec![("d".to_string(), g(5, 0))],
            &inputs,
            OperatorAction::Normal
        ),
        Err(QmbedError::InvalidOptions(Reason::UnknownParameter { index: 0 }))
    );
    assert_eq!(
        plain.apply_batch(&inputs, OperatorAction::Adjoint),
        Ok(vec![vec![g(0, 0), g(0, 0), g(0, 0), g(0, 0)]])
    );
}

#[test]
fn terms_add_up() {
    let basis = SpinBasis1D::builder(3).build().unwrap();
    let hops = || term("+-", &[(2, vec![1, 0]), (3, vec![2, 1])]);
    let raises = || term("+", &[(5, vec![0])]);
    let input: Vec<Gaussian> = (1..=8).map(|value| g(value, -value)).collect();
    let one = assemble(&basis, &vec![hops()], AssemblyChecks::none(), MatrixFormat::Csc).unwrap().apply(&input).unwrap();
    let other = assemble(&basis, &vec![raises()], AssemblyChecks::none(), MatrixFormat::Csc).unwrap().apply(&input).unwrap();
    let both = assemble(&basis, &vec![hops(), raises()], AssemblyChecks::none(), MatrixFormat::Csc).unwrap().apply(&input).unwrap();
    for row in 0..8 {
        assert_eq!(both[row].re, one[row].re + other[row].re);
        assert_eq!(both[row].im, one[row].im + other[row].im);
    }
    assert_eq!(both[1], g(5, -5));
    assert_eq!(both[2], g(4, -4));
}

#[test]
fn families_hand_out_single_components() {
    let family = PackedOperatorModel::with_components(
        scaled_one(1),
        vec![QuantumComponent::required("u".to_string(), scaled_one(2))],
    )
    .unwrap();
    let component = family.component_operator(&"u".to_string(), MatrixFormat::Dense).unwrap();
    assert_eq!(component.get(0, 0), g(2, 0));
    assert_eq!(component.format(), MatrixFormat::Dense);
    assert_eq!(
        family.component_operator(&"v".to_string(), MatrixFormat::Dense).err(),
        Some(QmbedError::InvalidOptions(Reason::UnknownComponent))
    );
}

#[test]
fn projected_block_families_unite_their_components() {
    let sector = |fixed: i64, name: &str, value: i64| {
        PackedOperatorModel::with_components(
            scaled_one(fixed),
            vec![QuantumComponent::required(name.to_string(), scaled_one(value))],
        )
        .unwrap()
    };
    let blocks = vec![(sector(1, "u", 2), column(2, 1)), (sector(3, "v", 4), column(2, 0))];
    let joined = PackedOperatorModel::from_projected_blocks(blocks, 1, MatrixFormat::Csc).unwrap();
    let whole = joined
        .materialize(
            &vec![("u".to_string(), g(10, 0)), ("v".to_string(), g(100, 0))],
            MatrixFormat::Csc,
        )
        .unwrap();
    assert_eq!(whole.get(1, 1), g(21, 0));
    assert_eq!(whole.get(0, 0), g(403, 0));
    assert_eq!(whole.get(0, 1), g(0, 0));
    assert_eq!(
        PackedOperatorModel::<Gaussian>::from_projected_blocks(vec![], 1, MatrixFormat::Csc).err(),
        Some(QmbedError::InvalidOptions(Reason::Text(
            "a projected block family requires at least one sector model"
        )))
    );
}

#[test]
fn projectors_from_operators_are_isometric() {
    let projector = BasisProjector::from_operator(&column(3, 2), 1).unwrap();
    assert_eq!(projector.lifted(&vec![g(5, 0)]), Ok(vec![g(0, 0), g(0, 0), g(5, 0)]));
    let long = Operator::from_triplets(2, 1, vec![(0, 0, g(2, 0))], MatrixFormat::Csc).unwrap();
    assert_eq!(
        BasisProjector::from_operator(&long, 1).err(),
        Some(QmbedError::InvalidOptions(Reason::Text(
            "operator columns are not isometric within the tolerance"
        )))
    );
    assert_eq!(
        BasisProjector::from_operator(&column(3, 2), 0).err(),
        Some(QmbedError::InvalidOptions(Reason::Text(
            "projector-isometry tolerance must be positive and finite"
        )))
    );
}

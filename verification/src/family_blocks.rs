//! Operator families assembled from sector families.

use vstd::prelude::*;

use crate::block;
use crate::block::BlockOps;
use crate::error::{QmbedError, Reason, Result};
use crate::family;
use crate::family::{find_component, ComponentModel, QuantumComponent, QuantumOperator};
use crate::interop;
use crate::interop::{FamilyModel, PackedOperatorModel};
use crate::linear;
use crate::linear::{LinearOperator, MatrixFormat, Operator, OperatorModel, Scalar};
use crate::projection;
use crate::projection::projected_matrix;

verus! {

/// Models of a list of operators.
pub open spec fn operator_models<S>(operators: Seq<Operator<S>>) -> Seq<OperatorModel<S>> {
    Seq::new(operators.len(), |k: int| operators[k]@)
}

/// Turns one operator for each sector into an operator on the whole space.
pub trait BlockLift<S: Scalar> {
    /// The invariant that constructors establish.
    spec fn ready(&self) -> bool;

    /// The lifted operator.
    spec fn spec_lift(&self, operators: Seq<OperatorModel<S>>) -> core::result::Result<
        OperatorModel<S>,
        QmbedError,
    >;

    /// The lifted operator.
    fn lift(&self, operators: Vec<Operator<S>>) -> (result: Result<Operator<S>>)
        requires
            self.ready(),
            block::all_wf(operators@),
        ensures
            match self.spec_lift(operator_models(operators@)) {
                Ok(model) => result matches Ok(operator) && operator.valid() && operator@ == model,
                Err(error) => result matches Err(found) && found == error,
            },
    ;
}

/// A name and the default coefficient that goes with it.
pub type NamedDefault<S> = (Seq<char>, Option<S>);

/// Names of a merged list.
pub open spec fn merged_names<S>(list: Seq<NamedDefault<S>>) -> Seq<Seq<char>> {
    Seq::new(list.len(), |k: int| list[k].0)
}

/// Whether two default coefficients agree.
pub open spec fn same_default<S: Scalar>(left: Option<S>, right: Option<S>) -> bool {
    match (left, right) {
        (Some(left), Some(right)) => left.spec_same(right),
        (None, None) => true,
        _ => false,
    }
}

/// A merged list with the first components of one more sector.
pub open spec fn merge_components<S: Scalar>(
    list: Seq<NamedDefault<S>>,
    components: Seq<ComponentModel<S>>,
    sector: nat,
    count: nat,
) -> core::result::Result<Seq<NamedDefault<S>>, QmbedError>
    decreases count,
{
    if count == 0 {
        Ok(list)
    } else {
        match merge_components(list, components, sector, (count - 1) as nat) {
            Err(error) => Err(error),
            Ok(before) => {
                let component = components[count - 1];
                match family::position(merged_names(before), component.name, before.len()) {
                    Some(place) => if same_default(before[place as int].1, component.default) {
                        Ok(before)
                    } else {
                        Err(
                            QmbedError::InvalidOptions(Reason::InconsistentDefault {
                                block: sector as usize,
                                component: (count - 1) as usize,
                            }),
                        )
                    },
                    None => Ok(before.push((component.name, component.default))),
                }
            },
        }
    }
}

/// Names and defaults of the components of the first sectors, in the order in which
/// they first appear.
pub open spec fn merge_sectors<S: Scalar>(
    sectors: Seq<FamilyModel<S>>,
    count: nat,
) -> core::result::Result<Seq<NamedDefault<S>>, QmbedError>
    decreases count,
{
    if count == 0 {
        Ok(Seq::empty())
    } else {
        match merge_sectors(sectors, (count - 1) as nat) {
            Err(error) => Err(error),
            Ok(before) => merge_components(
                before,
                sectors[count - 1].components,
                (count - 1) as nat,
                sectors[count - 1].components.len(),
            ),
        }
    }
}

/// The component of a sector with a name; zero where the sector has none.
pub open spec fn sector_component<S: Scalar>(
    sector: FamilyModel<S>,
    name: Seq<char>,
    format: MatrixFormat,
) -> OperatorModel<S> {
    match family::position(
        family::names_of(sector.components),
        name,
        sector.components.len(),
    ) {
        Some(place) => sector.components[place as int].operator,
        None => OperatorModel {
            rows: sector.fixed.rows,
            columns: sector.fixed.rows,
            entries: Seq::empty(),
            format,
        },
    }
}

/// The components of all sectors with a name.
pub open spec fn sector_components<S: Scalar>(
    sectors: Seq<FamilyModel<S>>,
    name: Seq<char>,
    format: MatrixFormat,
) -> Seq<OperatorModel<S>> {
    Seq::new(sectors.len(), |k: int| sector_component(sectors[k], name, format))
}

/// The first merged components, lifted.
pub open spec fn lifted_components<S: Scalar>(
    sectors: Seq<FamilyModel<S>>,
    list: Seq<NamedDefault<S>>,
    lift: spec_fn(Seq<OperatorModel<S>>) -> core::result::Result<OperatorModel<S>, QmbedError>,
    format: MatrixFormat,
    count: nat,
) -> core::result::Result<Seq<ComponentModel<S>>, QmbedError>
    decreases count,
{
    if count == 0 {
        Ok(Seq::empty())
    } else {
        match lifted_components(sectors, list, lift, format, (count - 1) as nat) {
            Err(error) => Err(error),
            Ok(before) => match lift(sector_components(sectors, list[count - 1].0, format)) {
                Err(error) => Err(error),
                Ok(operator) => Ok(
                    before.push(
                        ComponentModel {
                            name: list[count - 1].0,
                            operator,
                            default: list[count - 1].1,
                        },
                    ),
                ),
            },
        }
    }
}

/// Fixed parts of all sectors.
pub open spec fn fixed_parts<S>(sectors: Seq<FamilyModel<S>>) -> Seq<OperatorModel<S>> {
    Seq::new(sectors.len(), |k: int| sectors[k].fixed)
}

/// The family that combines the sectors, with components of the same name combined.
pub open spec fn combined_family<S: Scalar>(
    sectors: Seq<FamilyModel<S>>,
    lift: spec_fn(Seq<OperatorModel<S>>) -> core::result::Result<OperatorModel<S>, QmbedError>,
    format: MatrixFormat,
) -> core::result::Result<FamilyModel<S>, QmbedError> {
    if sectors.len() == 0 {
        Err(QmbedError::InvalidOptions(Reason::Text("a block family requires at least one sector model")))
    } else {
        match lift(fixed_parts(sectors)) {
            Err(error) => Err(error),
            Ok(fixed) => match merge_sectors(sectors, sectors.len()) {
                Err(error) => Err(error),
                Ok(list) => if list.len() == 0 {
                    if fixed.rows != fixed.columns {
                        Err(
                            QmbedError::DimensionMismatch(
                                Reason::Text("a persistent operator model must be square"),
                            ),
                        )
                    } else {
                        Ok(FamilyModel { fixed, components: Seq::empty() })
                    }
                } else {
                    match lifted_components(sectors, list, lift, format, list.len()) {
                        Err(error) => Err(error),
                        Ok(components) => match interop::model_error(fixed, components) {
                            Some(error) => Err(error),
                            None => Ok(FamilyModel { fixed, components }),
                        },
                    }
                },
            },
        }
    }
}

proof fn lemma_merge_components_fails<S: Scalar>(
    list: Seq<NamedDefault<S>>,
    components: Seq<ComponentModel<S>>,
    sector: nat,
    count: nat,
    later: nat,
)
    requires
        count <= later,
        merge_components(list, components, sector, count) is Err,
    ensures
        merge_components(list, components, sector, later) == merge_components(
            list,
            components,
            sector,
            count,
        ),
    decreases later,
{
    if count < later {
        lemma_merge_components_fails(list, components, sector, count, (later - 1) as nat);
    }
}

proof fn lemma_merge_sectors_fails<S: Scalar>(
    sectors: Seq<FamilyModel<S>>,
    count: nat,
    later: nat,
)
    requires
        count <= later,
        merge_sectors(sectors, count) is Err,
    ensures
        merge_sectors(sectors, later) == merge_sectors(sectors, count),
    decreases later,
{
    if count < later {
        lemma_merge_sectors_fails(sectors, count, (later - 1) as nat);
    }
}

proof fn lemma_lifted_components_fails<S: Scalar>(
    sectors: Seq<FamilyModel<S>>,
    list: Seq<NamedDefault<S>>,
    lift: spec_fn(Seq<OperatorModel<S>>) -> core::result::Result<OperatorModel<S>, QmbedError>,
    format: MatrixFormat,
    count: nat,
    later: nat,
)
    requires
        count <= later,
        lifted_components(sectors, list, lift, format, count) is Err,
    ensures
        lifted_components(sectors, list, lift, format, later) == lifted_components(
            sectors,
            list,
            lift,
            format,
            count,
        ),
    decreases later,
{
    if count < later {
        lemma_lifted_components_fails(sectors, list, lift, format, count, (later - 1) as nat);
    }
}

/// Models of a list of families.
pub open spec fn sector_models<S>(sectors: Seq<PackedOperatorModel<S>>) -> Seq<FamilyModel<S>> {
    Seq::new(sectors.len(), |k: int| sectors[k]@)
}

/// Whether every family satisfies its invariant.
pub open spec fn all_valid<S: Scalar>(sectors: Seq<PackedOperatorModel<S>>) -> bool {
    forall|k: int| 0 <= k < sectors.len() ==> (#[trigger] sectors[k]).valid()
}

/// Names and defaults as values of the model.
pub open spec fn defaults_of<S>(list: Seq<(String, Option<S>)>) -> Seq<NamedDefault<S>> {
    Seq::new(list.len(), |k: int| (list[k].0@, list[k].1))
}

fn find_default<S: Scalar>(list: &Vec<(String, Option<S>)>, name: &String) -> (place: Option<usize>)
    ensures
        match place {
            Some(place) => place < list@.len() && family::position(
                merged_names(defaults_of(list@)),
                name@,
                list@.len(),
            ) == Some(place as nat),
            None => family::position(merged_names(defaults_of(list@)), name@, list@.len()) is None,
        },
{
    let ghost names = merged_names(defaults_of(list@));
    let mut next: usize = 0;
    while next < list.len()
        invariant
            next <= list@.len(),
            names == merged_names(defaults_of(list@)),
            family::position(names, name@, next as nat) is None,
        decreases list@.len() - next,
    {
        assert(defaults_of(list@)[next as int].0 == list@[next as int].0@);
        if list[next].0 == *name {
            proof {
                assert(names[next as int] == name@);
                family::lemma_position(names, name@, (next + 1) as nat, list@.len());
            }
            return Some(next);
        }
        assert(names[next as int] != name@);
        next += 1;
    }
    None
}

fn defaults_agree<S: Scalar>(left: Option<S>, right: Option<S>) -> (answer: bool)
    ensures
        answer == same_default(left, right),
{
    match (left, right) {
        (Some(left), Some(right)) => left.same(&right),
        (None, None) => true,
        _ => false,
    }
}

/// Adds the components of one more sector to a merged list.
fn merge_family<S: Scalar>(
    list: &mut Vec<(String, Option<S>)>,
    family: &QuantumOperator<S>,
    sector: usize,
) -> (fault: Option<QmbedError>)
    ensures
        match merge_components(defaults_of(old(list)@), family@, sector as nat, family@.len()) {
            Ok(merged) => fault is None && defaults_of(final(list)@) == merged,
            Err(error) => fault == Some(error),
        },
{
    let ghost before = defaults_of(list@);
    let components: &Vec<QuantumComponent<S>> = family.components();
    let mut next: usize = 0;
    while next < components.len()
        invariant
            next <= components@.len(),
            before == defaults_of(old(list)@),
            family@ == family::models(components@),
            merge_components(before, family@, sector as nat, next as nat) == Ok::<
                Seq<NamedDefault<S>>,
                QmbedError,
            >(defaults_of(list@)),
        decreases components@.len() - next,
    {
        let component: &QuantumComponent<S> = &components[next];
        assert(family@[next as int] == component@);
        let ghost merged = defaults_of(list@);
        match find_default(list, component.name()) {
            Some(place) => {
                assert(merged[place as int].1 == list@[place as int].1);
                if !defaults_agree(list[place].1, component.default()) {
                    proof {
                        lemma_merge_components_fails(
                            before,
                            family@,
                            sector as nat,
                            (next + 1) as nat,
                            family@.len(),
                        );
                    }
                    return Some(
                        QmbedError::InvalidOptions(Reason::InconsistentDefault { block: sector, component: next }),
                    );
                }
            },
            None => {
                list.push((component.name().clone(), component.default()));
                assert(defaults_of(list@) =~= merged.push((component@.name, component@.default)));
            },
        }
        next += 1;
    }
    None
}

/// The component of a sector with a name; zero where the sector has none.
fn component_or_zero<S: Scalar>(
    sector: &PackedOperatorModel<S>,
    name: &String,
    format: MatrixFormat,
) -> (result: Result<Operator<S>>)
    requires
        sector.valid(),
    ensures
        result matches Ok(operator) && operator.valid() && operator@ == sector_component(
            sector@,
            name@,
            format,
        ),
{
    proof {
        sector.lemma_valid();
    }
    if let Some(family) = sector.parameterized_part() {
        let components: &Vec<QuantumComponent<S>> = family.components();
        if let Some(place) = find_component(components, name, components.len()) {
            proof {
                assert(family@[place as int] == components@[place as int]@);
                assert(family@[place as int].operator.rows == family@[0].operator.rows);
            }
            return Ok(components[place].operator().copied());
        }
    }
    let dimension: usize = sector.dimension();
    Operator::from_triplets(dimension, dimension, Vec::new(), format)
}

impl<S: Scalar> PackedOperatorModel<S> {
    /// The family that combines the sectors, with components of the same name combined.
    pub fn combine_block_families<L: BlockLift<S>>(
        sectors: &Vec<PackedOperatorModel<S>>,
        lift: &L,
        format: MatrixFormat,
    ) -> (result: Result<Self>)
        requires
            all_valid(sectors@),
            lift.ready(),
        ensures
            match combined_family(
                sector_models(sectors@),
                |operators: Seq<OperatorModel<S>>| lift.spec_lift(operators),
                format,
            ) {
                Ok(model) => result matches Ok(family) && family.valid() && family@ == model,
                Err(error) => result matches Err(found) && found == error,
            },
    {
        let ghost models = sector_models(sectors@);
        let ghost action = |operators: Seq<OperatorModel<S>>| lift.spec_lift(operators);
        if sectors.len() == 0 {
            return Err(
                QmbedError::InvalidOptions(Reason::Text("a block family requires at least one sector model")),
            );
        }
        let mut fixed_operators: Vec<Operator<S>> = Vec::new();
        let mut next: usize = 0;
        while next < sectors.len()
            invariant
                next <= sectors@.len(),
                models == sector_models(sectors@),
                all_valid(sectors@),
                fixed_operators@.len() == next,
                block::all_wf(fixed_operators@),
                forall|k: int|
                    0 <= k < next ==> (#[trigger] fixed_operators@[k])@ == models[k].fixed,
            decreases sectors@.len() - next,
        {
            proof {
                assert(sectors@[next as int].valid());
                sectors@[next as int].lemma_valid();
            }
            fixed_operators.push(sectors[next].static_part().copied());
            next += 1;
        }
        assert(operator_models(fixed_operators@) =~= fixed_parts(models));
        let static_part: Operator<S> = match lift.lift(fixed_operators) {
            Ok(operator) => operator,
            Err(error) => {
                return Err(error);
            },
        };
        let mut list: Vec<(String, Option<S>)> = Vec::new();
        next = 0;
        assert(defaults_of(list@) =~= Seq::empty());
        while next < sectors.len()
            invariant
                next <= sectors@.len(),
                sectors@.len() > 0,
                models == sector_models(sectors@),
                all_valid(sectors@),
                action == (|operators: Seq<OperatorModel<S>>| lift.spec_lift(operators)),
                action(fixed_parts(models)) == Ok::<OperatorModel<S>, QmbedError>(static_part@),
                merge_sectors(models, next as nat) == Ok::<Seq<NamedDefault<S>>, QmbedError>(
                    defaults_of(list@),
                ),
            decreases sectors@.len() - next,
        {
            assert(sectors@[next as int].valid());
            assert(models[next as int] == sectors@[next as int]@);
            if let Some(family) = sectors[next].parameterized_part() {
                if let Some(error) = merge_family(&mut list, family, next) {
                    proof {
                        lemma_merge_sectors_fails(models, (next + 1) as nat, models.len());
                    }
                    return Err(error);
                }
            }
            next += 1;
        }
        if list.len() == 0 {
            return PackedOperatorModel::new(static_part);
        }
        let ghost merged = defaults_of(list@);
        let mut components: Vec<QuantumComponent<S>> = Vec::new();
        let mut place: usize = 0;
        assert(family::models(components@) =~= Seq::empty());
        while place < list.len()
            invariant
                place <= list@.len(),
                list@.len() > 0,
                sectors@.len() > 0,
                models == sector_models(sectors@),
                all_valid(sectors@),
                lift.ready(),
                action == (|operators: Seq<OperatorModel<S>>| lift.spec_lift(operators)),
                action(fixed_parts(models)) == Ok::<OperatorModel<S>, QmbedError>(static_part@),
                merged == defaults_of(list@),
                merge_sectors(models, models.len()) == Ok::<Seq<NamedDefault<S>>, QmbedError>(
                    merged,
                ),
                forall|k: int| 0 <= k < components@.len() ==> (#[trigger] components@[k]).valid(),
                lifted_components(models, merged, action, format, place as nat) == Ok::<
                    Seq<ComponentModel<S>>,
                    QmbedError,
                >(family::models(components@)),
            decreases list@.len() - place,
        {
            let ghost name = merged[place as int].0;
            let mut operators: Vec<Operator<S>> = Vec::new();
            let mut sector: usize = 0;
            while sector < sectors.len()
                invariant
                    sector <= sectors@.len(),
                    place < list@.len(),
                    models == sector_models(sectors@),
                    all_valid(sectors@),
                    name == list@[place as int].0@,
                    operators@.len() == sector,
                    block::all_wf(operators@),
                    forall|k: int|
                        0 <= k < sector ==> (#[trigger] operators@[k])@ == sector_component(
                            models[k],
                            name,
                            format,
                        ),
                decreases sectors@.len() - sector,
            {
                assert(sectors@[sector as int].valid());
                match component_or_zero(&sectors[sector], &list[place].0, format) {
                    Ok(operator) => {
                        operators.push(operator);
                    },
                    Err(error) => {
                        return Err(error);
                    },
                }
                sector += 1;
            }
            assert(operator_models(operators@) =~= sector_components(models, name, format));
            match lift.lift(operators) {
                Ok(operator) => {
                    let ghost before = family::models(components@);
                    let component: QuantumComponent<S> = QuantumComponent::with_optional_default(
                        list[place].0.clone(),
                        operator,
                        list[place].1,
                    );
                    components.push(component);
                    assert(family::models(components@) =~= before.push(component@));
                },
                Err(error) => {
                    proof {
                        assert(action(sector_components(models, name, format)) == Err::<
                            OperatorModel<S>,
                            QmbedError,
                        >(error));
                        lemma_lifted_components_fails(
                            models,
                            merged,
                            action,
                            format,
                            (place + 1) as nat,
                            merged.len(),
                        );
                    }
                    return Err(error);
                },
            }
            place += 1;
        }
        PackedOperatorModel::with_components(static_part, components)
    }
}

/// Shapes of a list of operators.
pub open spec fn model_shapes<S>(operators: Seq<OperatorModel<S>>) -> Seq<(usize, usize)> {
    Seq::new(operators.len(), |k: int| (operators[k].rows, operators[k].columns))
}

/// The direct sum of stored operators.
pub open spec fn direct_sum_model<S: Scalar>(
    operators: Seq<OperatorModel<S>>,
    format: MatrixFormat,
) -> core::result::Result<OperatorModel<S>, QmbedError> {
    let shapes = model_shapes(operators);
    match block::direct_sum_error(shapes) {
        Some(error) => Err(error),
        None => {
            let dimension = block::offset(shapes, operators.len()) as usize;
            match block::concatenated(
                |k: int|
                    Ok(block::moved(operators[k].entries, block::offset(shapes, k as nat))),
                operators.len(),
            ) {
                Ok(entries) => Ok(
                    OperatorModel { rows: dimension, columns: dimension, entries, format },
                ),
                Err(error) => Err(error),
            }
        },
    }
}

/// Image of a vector under the direct sum of stored operators.
pub open spec fn direct_sum_image<S: Scalar>(
    operators: Seq<OperatorModel<S>>,
    input: Seq<S>,
) -> core::result::Result<Seq<S>, QmbedError> {
    let shapes = model_shapes(operators);
    block::concatenated(
        |k: int|
            Ok(
                linear::entries_apply(
                    operators[k].entries,
                    block::block_part(input, shapes, k),
                    operators[k].rows as nat,
                ),
            ),
        operators.len(),
    )
}

/// Entries of the first columns of `P (⊕ H) P†` for stored sector operators.
pub open spec fn projected_model_entries<S: Scalar>(
    operators: Seq<OperatorModel<S>>,
    projectors: Seq<Operator<S>>,
    count: nat,
) -> core::result::Result<Seq<(usize, usize, S)>, QmbedError>
    decreases count,
{
    let full = projectors[0]@.rows as nat;
    if count == 0 {
        Ok(Seq::empty())
    } else {
        match projected_model_entries(operators, projectors, (count - 1) as nat) {
            Err(error) => Err(error),
            Ok(before) => match projection::projected(
                projectors,
                linear::unit(full, (count - 1) as nat),
            ) {
                Err(error) => Err(error),
                Ok(coordinates) => match direct_sum_image(operators, coordinates) {
                    Err(error) => Err(error),
                    Ok(images) => match projection::lifted(projectors, images) {
                        Err(error) => Err(error),
                        Ok(column) => Ok(
                            before + linear::column_entries((count - 1) as usize, column, full),
                        ),
                    },
                },
            },
        }
    }
}

/// `P (⊕ H) P†` for stored sector operators.
pub open spec fn projected_model<S: Scalar>(
    operators: Seq<OperatorModel<S>>,
    projectors: Seq<Operator<S>>,
    tolerance: S::Size,
    format: MatrixFormat,
) -> core::result::Result<OperatorModel<S>, QmbedError> {
    match projection::projection_error(model_shapes(operators), projectors, tolerance) {
        Some(error) => Err(error),
        None => match projected_model_entries(operators, projectors, projectors[0]@.rows as nat) {
            Ok(entries) => Ok(
                OperatorModel {
                    rows: projectors[0]@.rows,
                    columns: projectors[0]@.rows,
                    entries,
                    format,
                },
            ),
            Err(error) => Err(error),
        },
    }
}

proof fn lemma_shapes_agree<S: Scalar>(operators: Seq<Operator<S>>)
    ensures
        model_shapes(operator_models(operators)) == block::shapes_of(operators),
{
    assert(model_shapes(operator_models(operators)) =~= block::shapes_of(operators));
}

proof fn lemma_direct_sum_model<S: Scalar>(operators: Seq<Operator<S>>, format: MatrixFormat)
    ensures
        match block::direct_sum_entries(operators, operators.len()) {
            Ok(entries) => block::direct_sum_error(block::shapes_of(operators)) is None
                ==> direct_sum_model(operator_models(operators), format) == Ok::<
                OperatorModel<S>,
                QmbedError,
            >(
                OperatorModel {
                    rows: block::offset(block::shapes_of(operators), operators.len()) as usize,
                    columns: block::offset(block::shapes_of(operators), operators.len()) as usize,
                    entries,
                    format,
                },
            ),
            Err(error) => block::direct_sum_error(block::shapes_of(operators)) is None
                ==> direct_sum_model(operator_models(operators), format) == Err::<
                OperatorModel<S>,
                QmbedError,
            >(error),
        },
{
    let list = operator_models(operators);
    let shapes = block::shapes_of(operators);
    lemma_shapes_agree(operators);
    let left = |k: int|
        match linear::entries_of(operators[k]) {
            Ok(entries) => Ok(
                block::moved(entries, block::offset(block::shapes_of(operators), k as nat)),
            ),
            Err(error) => Err(error),
        };
    let right = |k: int|
        Ok(block::moved(list[k].entries, block::offset(model_shapes(list), k as nat)));
    block::lemma_concatenated_same(left, right, operators.len());
}

proof fn lemma_direct_sum_image<S: Scalar>(operators: Seq<Operator<S>>, input: Seq<S>)
    ensures
        block::direct_sum_apply(operators, input) == direct_sum_image(
            operator_models(operators),
            input,
        ),
{
    let list = operator_models(operators);
    lemma_shapes_agree(operators);
    let left = |k: int|
        operators[k].spec_apply(block::block_part(input, block::shapes_of(operators), k));
    let right = |k: int|
        Ok(
            linear::entries_apply(
                list[k].entries,
                block::block_part(input, model_shapes(list), k),
                list[k].rows as nat,
            ),
        );
    block::lemma_concatenated_same(left, right, operators.len());
}

proof fn lemma_projected_model_entries<S: Scalar>(
    operators: Seq<Operator<S>>,
    projectors: Seq<Operator<S>>,
    count: nat,
)
    ensures
        projection::projected_entries(operators, projectors, count) == projected_model_entries(
            operator_models(operators),
            projectors,
            count,
        ),
    decreases count,
{
    if count > 0 {
        lemma_projected_model_entries(operators, projectors, (count - 1) as nat);
        let full = projectors[0]@.rows as nat;
        if let Ok(coordinates) = projection::projected(
            projectors,
            linear::unit::<S>(full, (count - 1) as nat),
        ) {
            lemma_direct_sum_image(operators, coordinates);
        }
    }
}

/// Combines sectors as a direct sum.
#[derive(Clone, Copy, Debug)]
pub struct DirectSum {
    pub format: MatrixFormat,
}

impl<S: Scalar> BlockLift<S> for DirectSum {
    open spec fn ready(&self) -> bool {
        true
    }

    open spec fn spec_lift(&self, operators: Seq<OperatorModel<S>>) -> core::result::Result<
        OperatorModel<S>,
        QmbedError,
    > {
        direct_sum_model(operators, self.format)
    }

    fn lift(&self, operators: Vec<Operator<S>>) -> (result: Result<Operator<S>>) {
        proof {
            lemma_shapes_agree(operators@);
            lemma_direct_sum_model(operators@, self.format);
        }
        match BlockOps::new(operators) {
            Ok(sum) => sum.materialize(self.format),
            Err(error) => Err(error),
        }
    }
}

/// Combines sectors by embedding them into a parent space.
#[derive(Debug)]
pub struct ProjectedSum<S: Scalar> {
    pub projectors: Vec<Operator<S>>,
    pub tolerance: S::Size,
    pub format: MatrixFormat,
}

impl<S: Scalar> BlockLift<S> for ProjectedSum<S> {
    open spec fn ready(&self) -> bool {
        block::all_wf(self.projectors@)
    }

    open spec fn spec_lift(&self, operators: Seq<OperatorModel<S>>) -> core::result::Result<
        OperatorModel<S>,
        QmbedError,
    > {
        projected_model(operators, self.projectors@, self.tolerance, self.format)
    }

    fn lift(&self, operators: Vec<Operator<S>>) -> (result: Result<Operator<S>>) {
        proof {
            lemma_shapes_agree(operators@);
            lemma_projected_model_entries(
                operators@,
                self.projectors@,
                self.projectors@[0]@.rows as nat,
            );
        }
        projected_matrix(operators, &self.projectors, self.tolerance, self.format)
    }
}

/// Families of a list of sectors with projectors.
pub open spec fn sector_families<S>(
    sectors: Seq<(PackedOperatorModel<S>, Operator<S>)>,
) -> Seq<FamilyModel<S>> {
    Seq::new(sectors.len(), |k: int| sectors[k].0@)
}

/// Projectors of a list of sectors with projectors.
pub open spec fn sector_projectors<S>(
    sectors: Seq<(PackedOperatorModel<S>, Operator<S>)>,
) -> Seq<Operator<S>> {
    Seq::new(sectors.len(), |k: int| sectors[k].1)
}

impl<S: Scalar> PackedOperatorModel<S> {
    /// The direct sum of independent families.
    ///
    /// Components of the same name are combined and share one coefficient.
    pub fn from_blocks(blocks: &Vec<PackedOperatorModel<S>>, format: MatrixFormat) -> (result: Result<
        Self,
    >)
        requires
            all_valid(blocks@),
        ensures
            match combined_family(
                sector_models(blocks@),
                |operators: Seq<OperatorModel<S>>| direct_sum_model(operators, format),
                format,
            ) {
                Ok(model) => result matches Ok(family) && family.valid() && family@ == model,
                Err(error) => result matches Err(found) && found == error,
            },
    {
        let lift: DirectSum = DirectSum { format };
        assert((|operators: Seq<OperatorModel<S>>| lift.spec_lift(operators)) =~= (|
            operators: Seq<OperatorModel<S>>,
        | direct_sum_model(operators, format)));
        Self::combine_block_families(blocks, &lift, format)
    }

    /// The family on a shared parent space of independently reduced sectors.
    ///
    /// The sectors keep their fixed parts and the union of their components. A sector
    /// without a component of some name contributes zero to it; defaults for a
    /// shared name have to agree.
    pub fn from_projected_blocks(
        blocks: Vec<(PackedOperatorModel<S>, Operator<S>)>,
        tolerance: S::Size,
        format: MatrixFormat,
    ) -> (result: Result<Self>)
        requires
            forall|k: int|
                0 <= k < blocks@.len() ==> (#[trigger] blocks@[k]).0.valid()
                    && blocks@[k].1.valid(),
        ensures
            if blocks@.len() == 0 {
                result matches Err(found) && found == QmbedError::InvalidOptions(
                    Reason::Text("a projected block family requires at least one sector model"),
                )
            } else {
                match combined_family(
                    sector_families(blocks@),
                    |operators: Seq<OperatorModel<S>>|
                        projected_model(operators, sector_projectors(blocks@), tolerance, format),
                    format,
                ) {
                    Ok(model) => result matches Ok(family) && family.valid() && family@ == model,
                    Err(error) => result matches Err(found) && found == error,
                }
            },
    {
        if blocks.len() == 0 {
            return Err(
                QmbedError::InvalidOptions(
                    Reason::Text("a projected block family requires at least one sector model"),
                ),
            );
        }
        let ghost given = blocks@;
        let mut rest: Vec<(PackedOperatorModel<S>, Operator<S>)> = blocks;
        let mut models: Vec<PackedOperatorModel<S>> = Vec::new();
        let mut projectors: Vec<Operator<S>> = Vec::new();
        while rest.len() > 0
            invariant
                forall|k: int|
                    0 <= k < given.len() ==> (#[trigger] given[k]).0.valid() && given[k].1.valid(),
                models@.len() + rest@.len() == given.len(),
                projectors@.len() == models@.len(),
                rest@ == given.skip(models@.len() as int),
                forall|k: int| 0 <= k < models@.len() ==> #[trigger] models@[k] == given[k].0,
                forall|k: int|
                    0 <= k < projectors@.len() ==> #[trigger] projectors@[k] == given[k].1,
            decreases rest@.len(),
        {
            let (model, projector) = rest.remove(0);
            models.push(model);
            projectors.push(projector);
            assert(rest@ =~= given.skip(models@.len() as int));
        }
        proof {
            assert(sector_models(models@) =~= sector_families(given));
            assert(projectors@ =~= sector_projectors(given));
            assert forall|k: int| 0 <= k < models@.len() implies (#[trigger] models@[k]).valid() by {
                assert(given[k].0.valid());
            }
            assert forall|k: int| 0 <= k < projectors@.len() implies (
            #[trigger] projectors@[k]).wf() by {
                assert(given[k].0.valid());
            }
        }
        let lift: ProjectedSum<S> = ProjectedSum { projectors, tolerance, format };
        assert((|operators: Seq<OperatorModel<S>>| lift.spec_lift(operators)) =~= (|
            operators: Seq<OperatorModel<S>>,
        | projected_model(operators, sector_projectors(given), tolerance, format)));
        Self::combine_block_families(&models, &lift, format)
    }
}

/// The first components, each as `P† A P`.
pub open spec fn compressed_components<S: Scalar>(
    components: Seq<ComponentModel<S>>,
    projector: OperatorModel<S>,
    count: nat,
) -> core::result::Result<Seq<ComponentModel<S>>, QmbedError>
    decreases count,
{
    if count == 0 {
        Ok(Seq::empty())
    } else {
        match compressed_components(components, projector, (count - 1) as nat) {
            Err(error) => Err(error),
            Ok(before) => match linear::compressed(components[count - 1].operator, projector) {
                Err(error) => Err(error),
                Ok(operator) => Ok(
                    before.push(
                        ComponentModel {
                            name: components[count - 1].name,
                            operator,
                            default: components[count - 1].default,
                        },
                    ),
                ),
            },
        }
    }
}

proof fn lemma_compressed_components_fail<S: Scalar>(
    components: Seq<ComponentModel<S>>,
    projector: OperatorModel<S>,
    count: nat,
    later: nat,
)
    requires
        count <= later,
        compressed_components(components, projector, count) is Err,
    ensures
        compressed_components(components, projector, later) == compressed_components(
            components,
            projector,
            count,
        ),
    decreases later,
{
    if count < later {
        lemma_compressed_components_fail(components, projector, count, (later - 1) as nat);
    }
}

/// A family with every part replaced by `P† A P`.
pub open spec fn compressed_family<S: Scalar>(
    model: FamilyModel<S>,
    projector: OperatorModel<S>,
) -> core::result::Result<FamilyModel<S>, QmbedError> {
    match linear::compressed(model.fixed, projector) {
        Err(error) => Err(error),
        Ok(fixed) => if model.components.len() == 0 {
            Ok(FamilyModel { fixed, components: Seq::empty() })
        } else {
            match compressed_components(model.components, projector, model.components.len()) {
                Err(error) => Err(error),
                Ok(components) => match interop::model_error(fixed, components) {
                    Some(error) => Err(error),
                    None => Ok(FamilyModel { fixed, components }),
                },
            }
        },
    }
}

impl<S: Scalar> PackedOperatorModel<S> {
    /// The family with every part replaced by `P† A P`; names and defaults stay.
    pub fn projected_by(&self, projector: &Operator<S>) -> (result: Result<Self>)
        requires
            self.valid(),
            projector.valid(),
        ensures
            match compressed_family(self@, projector@) {
                Ok(model) => result matches Ok(family) && family.valid() && family@ == model,
                Err(error) => result matches Err(found) && found == error,
            },
    {
        proof {
            self.lemma_valid();
        }
        let fixed: Operator<S> = match self.static_part().projected_by(projector) {
            Ok(fixed) => fixed,
            Err(error) => {
                return Err(error);
            },
        };
        let family: &QuantumOperator<S> = match self.parameterized_part() {
            Some(family) => family,
            None => {
                return PackedOperatorModel::new(fixed);
            },
        };
        let given: &Vec<QuantumComponent<S>> = family.components();
        let mut components: Vec<QuantumComponent<S>> = Vec::new();
        let mut next: usize = 0;
        assert(family::models(components@) =~= Seq::empty());
        while next < given.len()
            invariant
                next <= given@.len(),
                given@.len() > 0,
                projector.valid(),
                linear::compressed(self@.fixed, projector@) == Ok::<
                    OperatorModel<S>,
                    QmbedError,
                >(fixed@),
                self@.components == family::models(given@),
                family::same_shapes(self@.components),
                forall|k: int| 0 <= k < components@.len() ==> (#[trigger] components@[k]).valid(),
                compressed_components(self@.components, projector@, next as nat) == Ok::<
                    Seq<ComponentModel<S>>,
                    QmbedError,
                >(family::models(components@)),
            decreases given@.len() - next,
        {
            let component: &QuantumComponent<S> = &given[next];
            assert(self@.components[next as int] == component@);
            match component.operator().projected_by(projector) {
                Ok(operator) => {
                    let ghost before = family::models(components@);
                    let added: QuantumComponent<S> = QuantumComponent::with_optional_default(
                        component.name().clone(),
                        operator,
                        component.default(),
                    );
                    components.push(added);
                    assert(family::models(components@) =~= before.push(added@));
                },
                Err(error) => {
                    proof {
                        lemma_compressed_components_fail(
                            self@.components,
                            projector@,
                            (next + 1) as nat,
                            self@.components.len(),
                        );
                    }
                    return Err(error);
                },
            }
            next += 1;
        }
        PackedOperatorModel::with_components(fixed, components)
    }
}

/// Whether the first of a list of names differ from each other.
pub open spec fn names_differ(names: Seq<Seq<char>>) -> bool {
    forall|i: int, j: int|
        0 <= i < j < names.len() ==> #[trigger] names[i] != #[trigger] names[j]
}

/// Whether one of the first components has a name.
pub open spec fn named_among<S>(
    components: Seq<ComponentModel<S>>,
    name: Seq<char>,
    count: nat,
) -> bool {
    exists|c: int| 0 <= c < count && (#[trigger] components[c]).name == name
}

/// Whether one of the first sectors has a component with a name.
pub open spec fn named_in_sectors<S>(
    sectors: Seq<FamilyModel<S>>,
    name: Seq<char>,
    count: nat,
) -> bool {
    exists|k: int|
        0 <= k < count && named_among(
            (#[trigger] sectors[k]).components,
            name,
            sectors[k].components.len(),
        )
}

proof fn lemma_merged_components<S: Scalar>(
    list: Seq<NamedDefault<S>>,
    components: Seq<ComponentModel<S>>,
    sector: nat,
    count: nat,
    name: Seq<char>,
)
    requires
        names_differ(merged_names(list)),
        count <= components.len(),
    ensures
        match merge_components(list, components, sector, count) {
            Ok(merged) => names_differ(merged_names(merged)) && (merged_names(merged).contains(name)
                <==> merged_names(list).contains(name) || named_among(components, name, count)),
            Err(_) => true,
        },
    decreases count,
{
    if count > 0 {
        lemma_merged_components(list, components, sector, (count - 1) as nat, name);
        if let Ok(before) = merge_components(list, components, sector, (count - 1) as nat) {
            let component = components[count - 1];
            let names = merged_names(before);
            family::lemma_position_found(names, component.name, before.len());
            if named_among(components, name, count) {
                let c = choose|c: int|
                    0 <= c < count && (#[trigger] components[c]).name == name;
                if c < count - 1 {
                    assert(named_among(components, name, (count - 1) as nat));
                }
            }
            if named_among(components, name, (count - 1) as nat) {
                let c = choose|c: int|
                    0 <= c < count - 1 && (#[trigger] components[c]).name == name;
                assert(components[c].name == name);
            }
            assert(components[count - 1].name == component.name);
            match family::position(names, component.name, before.len()) {
                Some(place) => {
                    assert(names[place as int] == component.name);
                },
                None => {
                    let longer = before.push((component.name, component.default));
                    let after = merged_names(longer);
                    assert(after =~= names.push(component.name));
                    if names.contains(name) {
                        let i = choose|i: int| 0 <= i < names.len() && names[i] == name;
                        assert(after[i] == name);
                    }
                    assert(after[before.len() as int] == component.name);
                },
            }
        }
    }
}

proof fn lemma_merged_sectors<S: Scalar>(
    sectors: Seq<FamilyModel<S>>,
    count: nat,
    name: Seq<char>,
)
    requires
        count <= sectors.len(),
    ensures
        match merge_sectors(sectors, count) {
            Ok(merged) => names_differ(merged_names(merged)) && (merged_names(merged).contains(name)
                <==> named_in_sectors(sectors, name, count)),
            Err(_) => true,
        },
    decreases count,
{
    if count > 0 {
        lemma_merged_sectors(sectors, (count - 1) as nat, name);
        if let Ok(before) = merge_sectors(sectors, (count - 1) as nat) {
            let components = sectors[count - 1].components;
            lemma_merged_components(
                before,
                components,
                (count - 1) as nat,
                components.len(),
                name,
            );
            if named_in_sectors(sectors, name, count) {
                let k = choose|k: int|
                    0 <= k < count && named_among(
                        (#[trigger] sectors[k]).components,
                        name,
                        sectors[k].components.len(),
                    );
                if k < count - 1 {
                    assert(named_in_sectors(sectors, name, (count - 1) as nat));
                }
            }
            if named_in_sectors(sectors, name, (count - 1) as nat) {
                let k = choose|k: int|
                    0 <= k < count - 1 && named_among(
                        (#[trigger] sectors[k]).components,
                        name,
                        sectors[k].components.len(),
                    );
                assert(named_in_sectors(sectors, name, count));
            }
            if named_among(components, name, components.len()) {
                assert(sectors[count - 1].components == components);
                assert(named_in_sectors(sectors, name, count));
            }
        }
    }
}

/// The components of combined sectors are the union of the sectors' components: every
/// name occurs once, and a name occurs exactly if some sector has it.
pub proof fn law_components_are_the_union<S: Scalar>(
    sectors: Seq<FamilyModel<S>>,
    list: Seq<NamedDefault<S>>,
    name: Seq<char>,
)
    requires
        merge_sectors(sectors, sectors.len()) == Ok::<Seq<NamedDefault<S>>, QmbedError>(list),
    ensures
        names_differ(merged_names(list)),
        merged_names(list).contains(name) <==> named_in_sectors(sectors, name, sectors.len()),
{
    lemma_merged_sectors(sectors, sectors.len(), name);
}

} // verus!

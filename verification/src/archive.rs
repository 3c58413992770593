//! Named operator families as archives: components without a fixed part.

use vstd::prelude::*;

use crate::error::{QmbedError, Reason, Result};
use crate::family;
use crate::family::{find_component, ComponentModel, QuantumComponent};
use crate::interop::{FamilyModel, PackedOperatorModel};
use crate::linear;
use crate::linear::{MatrixFormat, Operator, OperatorModel, Scalar};

verus! {

/// Named operators with their default coefficients, in a stable order.
#[derive(Debug)]
pub struct OperatorArchive<S> {
    components: Vec<QuantumComponent<S>>,
}

impl<S> View for OperatorArchive<S> {
    type V = Seq<ComponentModel<S>>;

    closed spec fn view(&self) -> Seq<ComponentModel<S>> {
        family::models(self.components@)
    }
}

impl<S: Scalar> OperatorArchive<S> {
    /// Entries of every operator inside its shape.
    pub closed spec fn valid(&self) -> bool {
        forall|k: int|
            0 <= k < self.components@.len() ==> (#[trigger] self.components@[k]).valid()
    }

    /// An archive that holds nothing.
    pub fn new() -> (archive: Self)
        ensures
            archive.valid(),
            archive@ == Seq::<ComponentModel<S>>::empty(),
    {
        let archive = OperatorArchive { components: Vec::new() };
        assert(archive@ =~= Seq::empty());
        archive
    }

    /// Adds a named operator at the end. What the names and defaults have to be is asked when the
    /// family is made.
    pub fn insert(&mut self, name: String, operator: Operator<S>, default: Option<S>)
        requires
            old(self).valid(),
            operator.valid(),
        ensures
            final(self).valid(),
            final(self)@ == old(self)@.push(
                (ComponentModel { name: name@, operator: operator@, default }),
            ),
    {
        self.components.push(QuantumComponent::with_optional_default(name, operator, default));
        assert(self@ =~= old(self)@.push(
            (ComponentModel { name: name@, operator: operator@, default }),
        ));
    }

    /// The archived components in order.
    pub fn components(&self) -> (components: &Vec<QuantumComponent<S>>)
        ensures
            family::models(components@) == self@,
    {
        &self.components
    }
}

/// The format that a list of formats gives a name last.
pub open spec fn format_for(
    formats: Seq<(Seq<char>, MatrixFormat)>,
    name: Seq<char>,
    count: nat,
) -> Option<MatrixFormat>
    decreases count,
{
    if count == 0 {
        None
    } else if formats[count - 1].0 == name {
        Some(formats[count - 1].1)
    } else {
        format_for(formats, name, (count - 1) as nat)
    }
}

/// A component in the format chosen for its name, or else in the format it has.
pub open spec fn stored<S>(
    component: ComponentModel<S>,
    formats: Seq<(Seq<char>, MatrixFormat)>,
) -> ComponentModel<S> {
    match format_for(formats, component.name, formats.len()) {
        Some(format) => ComponentModel {
            operator: linear::in_format(component.operator, format),
            ..component
        },
        None => component,
    }
}

/// Components in the formats chosen for their names.
pub open spec fn all_stored<S>(
    components: Seq<ComponentModel<S>>,
    formats: Seq<(Seq<char>, MatrixFormat)>,
) -> Seq<ComponentModel<S>> {
    Seq::new(components.len(), |k: int| stored(components[k], formats))
}

/// Whether every given name is that of a component.
pub open spec fn names_known<S>(
    components: Seq<ComponentModel<S>>,
    formats: Seq<(Seq<char>, MatrixFormat)>,
) -> bool {
    forall|i: int|
        0 <= i < formats.len() ==> family::names_of(components).contains((#[trigger] formats[i]).0)
}

/// Names and formats of a list.
pub open spec fn formats_of(formats: Seq<(String, MatrixFormat)>) -> Seq<(Seq<char>, MatrixFormat)> {
    Seq::new(formats.len(), |k: int| (formats[k].0@, formats[k].1))
}

/// The components that an archive of a family holds, in the formats chosen by name. A fixed part
/// with entries would be lost, so it is refused, and so is a format for a name that no component
/// has.
pub open spec fn archived<S>(
    family: FamilyModel<S>,
    formats: Seq<(Seq<char>, MatrixFormat)>,
) -> core::result::Result<Seq<ComponentModel<S>>, QmbedError> {
    if family.fixed.entries.len() > 0 {
        Err(
            QmbedError::InvalidOptions(
                Reason::Text("the named-component archive cannot omit a nonzero fixed operator"),
            ),
        )
    } else if family.components.len() == 0 {
        Err(QmbedError::InvalidOptions(Reason::Text("an operator archive requires at least one named component")))
    } else if !names_known(family.components, formats) {
        Err(QmbedError::InvalidOptions(Reason::UnknownComponent))
    } else {
        Ok(all_stored(family.components, formats))
    }
}

/// The family of archived components: its fixed part is zero.
pub open spec fn restored<S: Scalar>(
    components: Seq<ComponentModel<S>>,
    static_format: MatrixFormat,
) -> core::result::Result<FamilyModel<S>, QmbedError> {
    match family::family_error(components) {
        Some(error) => Err(error),
        None => Ok(
            FamilyModel {
                fixed: OperatorModel {
                    rows: components[0].operator.rows,
                    columns: components[0].operator.columns,
                    entries: Seq::empty(),
                    format: static_format,
                },
                components,
            },
        ),
    }
}

/// Whether a component has a name.
fn has_name<S: Scalar>(components: &Vec<QuantumComponent<S>>, name: &String) -> (answer: bool)
    ensures
        answer == family::names_of(family::models(components@)).contains(name@),
{
    proof {
        let names = family::names_of(family::models(components@));
        family::lemma_position_found(names, name@, names.len());
    }
    find_component(components, name, components.len()).is_some()
}

/// The format that a list of formats gives a name last.
fn find_format(formats: &Vec<(String, MatrixFormat)>, name: &String) -> (format: Option<MatrixFormat>)
    ensures
        format == format_for(formats_of(formats@), name@, formats@.len()),
{
    let ghost chosen = formats_of(formats@);
    let mut found: Option<MatrixFormat> = None;
    let mut next: usize = 0;
    while next < formats.len()
        invariant
            next <= formats@.len(),
            chosen == formats_of(formats@),
            found == format_for(chosen, name@, next as nat),
        decreases formats@.len() - next,
    {
        assert(chosen[next as int] == (formats@[next as int].0@, formats@[next as int].1));
        if formats[next].0 == *name {
            found = Some(formats[next].1);
        }
        next += 1;
    }
    found
}

impl<S: Scalar> PackedOperatorModel<S> {
    /// The named part of the family as an archive.
    ///
    /// The format of each component may be chosen by its name; a component without a choice keeps
    /// its format. Where a name is given twice the last choice counts.
    pub fn component_archive(&self, formats: &Vec<(String, MatrixFormat)>) -> (result: Result<
        OperatorArchive<S>,
    >)
        requires
            self.valid(),
        ensures
            match result {
                Ok(archive) => {
                    &&& archive.valid()
                    &&& archived(self@, formats_of(formats@)) == Ok::<
                        Seq<ComponentModel<S>>,
                        QmbedError,
                    >(archive@)
                },
                Err(error) => archived(self@, formats_of(formats@)) == Err::<
                    Seq<ComponentModel<S>>,
                    QmbedError,
                >(error),
            },
    {
        if self.static_part().triplets().len() > 0 {
            return Err(
                QmbedError::InvalidOptions(
                    Reason::Text("the named-component archive cannot omit a nonzero fixed operator"),
                ),
            );
        }
        let parts: &Vec<QuantumComponent<S>> = match self.parameterized_part() {
            Some(family) => {
                proof {
                    family.lemma_valid();
                }
                family.components()
            },
            None => {
                return Err(
                    QmbedError::InvalidOptions(
                        Reason::Text("an operator archive requires at least one named component"),
                    ),
                );
            },
        };
        let ghost list = self@.components;
        let ghost chosen = formats_of(formats@);
        let mut known: usize = 0;
        while known < formats.len()
            invariant
                known <= formats@.len(),
                chosen == formats_of(formats@),
                list == family::models(parts@),
                list == self@.components,
                list.len() > 0,
                self@.fixed.entries.len() == 0,
                forall|i: int|
                    0 <= i < known ==> family::names_of(list).contains((#[trigger] chosen[i]).0),
            decreases formats@.len() - known,
        {
            assert(chosen[known as int].0 == formats@[known as int].0@);
            if !has_name(parts, &formats[known].0) {
                assert(!names_known(list, chosen));
                return Err(QmbedError::InvalidOptions(Reason::UnknownComponent));
            }
            known += 1;
        }
        let mut components: Vec<QuantumComponent<S>> = Vec::new();
        let mut next: usize = 0;
        while next < parts.len()
            invariant
                next <= parts@.len(),
                list == family::models(parts@),
                family::same_shapes(list),
                chosen == formats_of(formats@),
                components@.len() == next,
                forall|k: int|
                    0 <= k < next ==> (#[trigger] components@[k])@ == stored(list[k], chosen)
                        && components@[k].valid(),
            decreases parts@.len() - next,
        {
            assert(list[next as int] == parts@[next as int]@);
            let operator: Operator<S> = parts[next].operator().copied();
            let operator: Operator<S> = match find_format(formats, parts[next].name()) {
                Some(format) => operator.converted(format),
                None => operator,
            };
            let component: QuantumComponent<S> = QuantumComponent::with_optional_default(
                parts[next].name().clone(),
                operator,
                parts[next].default(),
            );
            components.push(component);
            next += 1;
        }
        let archive = OperatorArchive { components };
        assert(archive@ =~= all_stored(list, chosen));
        Ok(archive)
    }

    /// The family of an archive, with the zero operator in the given format as its fixed part.
    pub fn from_component_archive(archive: OperatorArchive<S>, static_format: MatrixFormat) -> (
    result: Result<Self>)
        requires
            archive.valid(),
        ensures
            match result {
                Ok(model) => {
                    &&& model.valid()
                    &&& restored(archive@, static_format) == Ok::<FamilyModel<S>, QmbedError>(
                        model@,
                    )
                },
                Err(error) => restored(archive@, static_format) == Err::<
                    FamilyModel<S>,
                    QmbedError,
                >(error),
            },
    {
        proof {
            if archive.components@.len() > 0 {
                assert(archive@[0] == archive.components@[0]@);
            }
        }
        Self::parameterized(archive.components, static_format)
    }
}

/// Archiving a family and making a family of the archive are inverse: a family that can be
/// archived comes back with its components in the chosen formats, unchanged where none is chosen,
/// and so do the components of a family made from an archive.
pub proof fn law_archive_round_trip<S: Scalar>(
    model: PackedOperatorModel<S>,
    formats: Seq<(Seq<char>, MatrixFormat)>,
    archive: OperatorArchive<S>,
)
    requires
        model.valid(),
    ensures
        archived(model@, formats) == Ok::<Seq<ComponentModel<S>>, QmbedError>(archive@)
            ==> restored(archive@, model@.fixed.format) == Ok::<FamilyModel<S>, QmbedError>(
            FamilyModel { fixed: model@.fixed, components: all_stored(model@.components, formats) },
        ),
        formats.len() == 0 ==> all_stored(model@.components, formats) == model@.components,
        restored(archive@, model@.fixed.format) == Ok::<FamilyModel<S>, QmbedError>(model@)
            ==> archived(model@, Seq::empty()) == Ok::<Seq<ComponentModel<S>>, QmbedError>(
            archive@,
        ),
{
    model.lemma_valid();
    if formats.len() == 0 {
        assert(all_stored(model@.components, formats) =~= model@.components);
    }
    let kept: Seq<(Seq<char>, MatrixFormat)> = Seq::empty();
    assert(all_stored(model@.components, kept) =~= model@.components);
    if archived(model@, formats) == Ok::<Seq<ComponentModel<S>>, QmbedError>(archive@) {
        assert(model@.fixed.entries =~= Seq::empty());
        lemma_stored_family(model@.components, formats, model@.components.len());
    }
}

/// Formats do not decide whether components make a family.
proof fn lemma_stored_family<S: Scalar>(
    components: Seq<ComponentModel<S>>,
    formats: Seq<(Seq<char>, MatrixFormat)>,
    count: nat,
)
    requires
        count <= components.len(),
        components.len() > 0,
    ensures
        family::components_error(all_stored(components, formats), count)
            == family::components_error(components, count),
    decreases count,
{
    assert(family::names_of(all_stored(components, formats)) =~= family::names_of(components));
    if count > 0 {
        lemma_stored_family(components, formats, (count - 1) as nat);
    }
}

} // verus!

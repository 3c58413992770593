//! A basis with the local terms of an operator on it.

use vstd::prelude::*;

use crate::basis::Basis;
use crate::checks;
use crate::checks::AssemblyChecks;
use crate::error::{QmbedError, Reason, Result};
use crate::family;
use crate::linear;
use crate::linear::{zero_vector, Scalar};
use crate::ordered::copy_list;
use crate::permutation;
use crate::permutation::check_permutation;

verus! {

/// Coefficient and sites of a coupling.
pub struct CouplingModel<S> {
    pub coefficient: S,
    pub sites: Seq<usize>,
}

/// A coefficient and the sites on which an operator string acts.
#[derive(Debug)]
pub struct Coupling<S> {
    pub coefficient: S,
    pub sites: Vec<usize>,
}

impl<S> View for Coupling<S> {
    type V = CouplingModel<S>;

    open spec fn view(&self) -> CouplingModel<S> {
        CouplingModel { coefficient: self.coefficient, sites: self.sites@ }
    }
}

/// Operator string and couplings of a term.
pub struct TermModel<S> {
    pub operator: Seq<char>,
    pub couplings: Seq<CouplingModel<S>>,
}

/// Models of a list of couplings.
pub open spec fn couplings_of<S>(couplings: Seq<Coupling<S>>) -> Seq<CouplingModel<S>> {
    Seq::new(couplings.len(), |k: int| couplings[k]@)
}

/// An operator string with its couplings.
#[derive(Debug)]
pub struct OperatorSpec<S> {
    operator: String,
    couplings: Vec<Coupling<S>>,
}

impl<S> View for OperatorSpec<S> {
    type V = TermModel<S>;

    closed spec fn view(&self) -> TermModel<S> {
        TermModel { operator: self.operator@, couplings: couplings_of(self.couplings@) }
    }
}

/// Models of a list of terms.
pub open spec fn terms_of<S>(terms: Seq<OperatorSpec<S>>) -> Seq<TermModel<S>> {
    Seq::new(terms.len(), |k: int| terms[k]@)
}

/// The first sites, relabeled.
pub open spec fn relabeled_sites(
    sites: Seq<usize>,
    permutation: Seq<usize>,
    count: nat,
) -> core::result::Result<Seq<usize>, QmbedError>
    decreases count,
{
    if count == 0 {
        Ok(Seq::empty())
    } else {
        match relabeled_sites(sites, permutation, (count - 1) as nat) {
            Err(error) => Err(error),
            Ok(before) => {
                let site = sites[count - 1];
                if site < permutation.len() {
                    Ok(before.push(permutation[site as int]))
                } else {
                    Err(QmbedError::InvalidSite { site, sites: permutation.len() as usize })
                }
            },
        }
    }
}

/// The first couplings, relabeled.
pub open spec fn relabeled_couplings<S>(
    couplings: Seq<CouplingModel<S>>,
    permutation: Seq<usize>,
    count: nat,
) -> core::result::Result<Seq<CouplingModel<S>>, QmbedError>
    decreases count,
{
    if count == 0 {
        Ok(Seq::empty())
    } else {
        match relabeled_couplings(couplings, permutation, (count - 1) as nat) {
            Err(error) => Err(error),
            Ok(before) => {
                let coupling = couplings[count - 1];
                match relabeled_sites(coupling.sites, permutation, coupling.sites.len()) {
                    Err(error) => Err(error),
                    Ok(sites) => Ok(
                        before.push(CouplingModel { coefficient: coupling.coefficient, sites }),
                    ),
                }
            },
        }
    }
}

/// A term, relabeled.
pub open spec fn relabeled_term<S>(
    term: TermModel<S>,
    permutation: Seq<usize>,
) -> core::result::Result<TermModel<S>, QmbedError> {
    match relabeled_couplings(term.couplings, permutation, term.couplings.len()) {
        Err(error) => Err(error),
        Ok(couplings) => Ok(TermModel { operator: term.operator, couplings }),
    }
}

/// The first terms, relabeled.
pub open spec fn relabeled_terms<S>(
    terms: Seq<TermModel<S>>,
    permutation: Seq<usize>,
    count: nat,
) -> core::result::Result<Seq<TermModel<S>>, QmbedError>
    decreases count,
{
    if count == 0 {
        Ok(Seq::empty())
    } else {
        match relabeled_terms(terms, permutation, (count - 1) as nat) {
            Err(error) => Err(error),
            Ok(before) => match relabeled_term(terms[count - 1], permutation) {
                Err(error) => Err(error),
                Ok(term) => Ok(before.push(term)),
            },
        }
    }
}

proof fn lemma_sites_fail(sites: Seq<usize>, permutation: Seq<usize>, count: nat, later: nat)
    requires
        count <= later,
        relabeled_sites(sites, permutation, count) is Err,
    ensures
        relabeled_sites(sites, permutation, later) == relabeled_sites(sites, permutation, count),
    decreases later,
{
    if count < later {
        lemma_sites_fail(sites, permutation, count, (later - 1) as nat);
    }
}

proof fn lemma_couplings_fail<S>(
    couplings: Seq<CouplingModel<S>>,
    permutation: Seq<usize>,
    count: nat,
    later: nat,
)
    requires
        count <= later,
        relabeled_couplings(couplings, permutation, count) is Err,
    ensures
        relabeled_couplings(couplings, permutation, later) == relabeled_couplings(
            couplings,
            permutation,
            count,
        ),
    decreases later,
{
    if count < later {
        lemma_couplings_fail(couplings, permutation, count, (later - 1) as nat);
    }
}

proof fn lemma_terms_fail<S>(
    terms: Seq<TermModel<S>>,
    permutation: Seq<usize>,
    count: nat,
    later: nat,
)
    requires
        count <= later,
        relabeled_terms(terms, permutation, count) is Err,
    ensures
        relabeled_terms(terms, permutation, later) == relabeled_terms(terms, permutation, count),
    decreases later,
{
    if count < later {
        lemma_terms_fail(terms, permutation, count, (later - 1) as nat);
    }
}

/// Sites, relabeled.
fn relabel_sites(sites: &Vec<usize>, permutation: &Vec<usize>) -> (result: Result<Vec<usize>>)
    ensures
        linear::vector_is(result, relabeled_sites(sites@, permutation@, sites@.len())),
{
    let mut list: Vec<usize> = Vec::new();
    let mut next: usize = 0;
    while next < sites.len()
        invariant
            next <= sites@.len(),
            relabeled_sites(sites@, permutation@, next as nat) == Ok::<Seq<usize>, QmbedError>(
                list@,
            ),
        decreases sites@.len() - next,
    {
        let site: usize = sites[next];
        if site >= permutation.len() {
            proof {
                lemma_sites_fail(sites@, permutation@, (next + 1) as nat, sites@.len());
            }
            return Err(QmbedError::InvalidSite { site, sites: permutation.len() });
        }
        list.push(permutation[site]);
        next += 1;
    }
    Ok(list)
}

impl<S: Scalar> OperatorSpec<S> {
    /// The term with an operator string and couplings.
    pub fn new(operator: String, couplings: Vec<Coupling<S>>) -> (term: Self)
        ensures
            term@ == (TermModel { operator: operator@, couplings: couplings_of(couplings@) }),
    {
        OperatorSpec { operator, couplings }
    }

    pub fn operator(&self) -> (operator: &String)
        ensures
            operator@ == self@.operator,
    {
        &self.operator
    }

    pub fn couplings(&self) -> (couplings: &Vec<Coupling<S>>)
        ensures
            couplings_of(couplings@) == self@.couplings,
    {
        &self.couplings
    }

    /// The term with its sites relabeled.
    pub fn with_site_permutation(&self, permutation: &Vec<usize>) -> (result: Result<Self>)
        ensures
            match relabeled_term(self@, permutation@) {
                Ok(model) => result matches Ok(term) && term@ == model,
                Err(error) => result matches Err(found) && found == error,
            },
    {
        let ghost given = couplings_of(self.couplings@);
        let mut couplings: Vec<Coupling<S>> = Vec::new();
        let mut next: usize = 0;
        assert(couplings_of(couplings@) =~= Seq::empty());
        while next < self.couplings.len()
            invariant
                next <= self.couplings@.len(),
                given == couplings_of(self.couplings@),
                relabeled_couplings(given, permutation@, next as nat) == Ok::<
                    Seq<CouplingModel<S>>,
                    QmbedError,
                >(couplings_of(couplings@)),
            decreases self.couplings@.len() - next,
        {
            let coupling: &Coupling<S> = &self.couplings[next];
            assert(given[next as int] == coupling@);
            match relabel_sites(&coupling.sites, permutation) {
                Ok(sites) => {
                    let ghost before = couplings_of(couplings@);
                    let added: Coupling<S> = Coupling { coefficient: coupling.coefficient, sites };
                    couplings.push(added);
                    assert(couplings_of(couplings@) =~= before.push(added@));
                },
                Err(error) => {
                    proof {
                        lemma_couplings_fail(given, permutation@, (next + 1) as nat, given.len());
                    }
                    return Err(error);
                },
            }
            next += 1;
        }
        Ok(OperatorSpec { operator: self.operator.clone(), couplings })
    }

    /// The same term again.
    pub fn copied(&self) -> (term: Self)
        ensures
            term@ == self@,
    {
        let mut couplings: Vec<Coupling<S>> = Vec::new();
        let mut next: usize = 0;
        while next < self.couplings.len()
            invariant
                next <= self.couplings@.len(),
                couplings@.len() == next,
                forall|k: int| 0 <= k < next ==> (#[trigger] couplings@[k])@ == self.couplings@[k]@,
            decreases self.couplings@.len() - next,
        {
            couplings.push(
                Coupling {
                    coefficient: self.couplings[next].coefficient,
                    sites: copy_list(&self.couplings[next].sites),
                },
            );
            next += 1;
        }
        assert(couplings_of(couplings@) =~= couplings_of(self.couplings@));
        OperatorSpec { operator: self.operator.clone(), couplings }
    }
}

/// Terms, relabeled.
fn relabel_terms<S: Scalar>(terms: &Vec<OperatorSpec<S>>, permutation: &Vec<usize>) -> (result:
    Result<Vec<OperatorSpec<S>>>)
    ensures
        match relabeled_terms(terms_of(terms@), permutation@, terms@.len()) {
            Ok(list) => result matches Ok(relabeled) && terms_of(relabeled@) == list,
            Err(error) => result matches Err(found) && found == error,
        },
{
    let ghost given = terms_of(terms@);
    let mut list: Vec<OperatorSpec<S>> = Vec::new();
    let mut next: usize = 0;
    assert(terms_of(list@) =~= Seq::empty());
    while next < terms.len()
        invariant
            next <= terms@.len(),
            given == terms_of(terms@),
            relabeled_terms(given, permutation@, next as nat) == Ok::<
                Seq<TermModel<S>>,
                QmbedError,
            >(terms_of(list@)),
        decreases terms@.len() - next,
    {
        assert(given[next as int] == terms@[next as int]@);
        match terms[next].with_site_permutation(permutation) {
            Ok(term) => {
                let ghost before = terms_of(list@);
                list.push(term);
                assert(terms_of(list@) =~= before.push(term@));
            },
            Err(error) => {
                proof {
                    lemma_terms_fail(given, permutation@, (next + 1) as nat, given.len());
                }
                return Err(error);
            },
        }
        next += 1;
    }
    Ok(list)
}

/// Name, terms and default coefficient of a component.
pub struct TermComponentModel<S> {
    pub name: Seq<char>,
    pub terms: Seq<TermModel<S>>,
    pub default: Option<S>,
}

/// A named operator component in the local terms of a basis.
#[derive(Debug)]
pub struct PackedTermComponent<S> {
    name: String,
    terms: Vec<OperatorSpec<S>>,
    default: Option<S>,
}

impl<S> View for PackedTermComponent<S> {
    type V = TermComponentModel<S>;

    closed spec fn view(&self) -> TermComponentModel<S> {
        TermComponentModel {
            name: self.name@,
            terms: terms_of(self.terms@),
            default: self.default,
        }
    }
}

/// Models of a list of components.
pub open spec fn term_components<S>(components: Seq<PackedTermComponent<S>>) -> Seq<
    TermComponentModel<S>,
> {
    Seq::new(components.len(), |k: int| components[k]@)
}

impl<S: Scalar> PackedTermComponent<S> {
    /// A component whose coefficient has to be given.
    pub fn required(name: String, terms: Vec<OperatorSpec<S>>) -> (component: Self)
        ensures
            component@ == (TermComponentModel {
                name: name@,
                terms: terms_of(terms@),
                default: None::<S>,
            }),
    {
        PackedTermComponent { name, terms, default: None }
    }

    /// A component with a default coefficient.
    pub fn with_default(name: String, terms: Vec<OperatorSpec<S>>, default: S) -> (component: Self)
        ensures
            component@ == (TermComponentModel {
                name: name@,
                terms: terms_of(terms@),
                default: Some(default),
            }),
    {
        PackedTermComponent { name, terms, default: Some(default) }
    }

    /// A component whose coefficient is one unless another is given.
    pub fn parameter(name: String, terms: Vec<OperatorSpec<S>>) -> (component: Self)
        ensures
            component@ == (TermComponentModel {
                name: name@,
                terms: terms_of(terms@),
                default: Some(S::spec_one()),
            }),
    {
        Self::with_default(name, terms, S::one())
    }

    pub fn name(&self) -> (name: &String)
        ensures
            name@ == self@.name,
    {
        &self.name
    }

    pub fn terms(&self) -> (terms: &Vec<OperatorSpec<S>>)
        ensures
            terms_of(terms@) == self@.terms,
    {
        &self.terms
    }

    pub fn default(&self) -> (default: Option<S>)
        ensures
            default == self@.default,
    {
        self.default
    }
}

/// Names of a list of components.
pub open spec fn component_names_of<S>(components: Seq<TermComponentModel<S>>) -> Seq<Seq<char>> {
    Seq::new(components.len(), |k: int| components[k].name)
}

/// What is wrong with the first components, if anything.
pub open spec fn term_components_error<S: Scalar>(
    components: Seq<TermComponentModel<S>>,
    count: nat,
) -> Option<QmbedError>
    decreases count,
{
    if count == 0 {
        None
    } else {
        match term_components_error(components, (count - 1) as nat) {
            Some(error) => Some(error),
            None => {
                let component = components[count - 1];
                if component.name.len() == 0 || family::position(
                    component_names_of(components),
                    component.name,
                    (count - 1) as nat,
                ) is Some {
                    Some(QmbedError::InvalidOptions(Reason::Text("component names must be nonempty and unique")))
                } else if component.default is Some && !component.default->0.spec_is_finite() {
                    Some(QmbedError::InvalidOptions(Reason::Text("component defaults must be finite")))
                } else {
                    None
                }
            },
        }
    }
}

proof fn lemma_term_components_error<S: Scalar>(
    components: Seq<TermComponentModel<S>>,
    count: nat,
    later: nat,
)
    requires
        count <= later,
        term_components_error(components, count) is Some,
    ensures
        term_components_error(components, later) == term_components_error(components, count),
    decreases later,
{
    if count < later {
        lemma_term_components_error(components, count, (later - 1) as nat);
    }
}

/// Checks names and defaults of components.
pub fn validate_term_components<S: Scalar>(components: &Vec<PackedTermComponent<S>>) -> (result:
    Result<()>)
    ensures
        match result {
            Ok(_) => term_components_error(term_components(components@), components@.len()) is None,
            Err(error) => term_components_error(term_components(components@), components@.len())
                == Some(error),
        },
{
    let ghost list = term_components(components@);
    let ghost names = component_names_of(list);
    let mut next: usize = 0;
    while next < components.len()
        invariant
            next <= components@.len(),
            list == term_components(components@),
            names == component_names_of(list),
            term_components_error(list, next as nat) is None,
        decreases components@.len() - next,
    {
        let component: &PackedTermComponent<S> = &components[next];
        assert(list[next as int] == component@);
        let mut seen: bool = false;
        let mut earlier: usize = 0;
        while earlier < next
            invariant
                earlier <= next < components@.len(),
                component == components@[next as int],
                list == term_components(components@),
                names == component_names_of(list),
                seen <==> family::position(names, component@.name, earlier as nat) is Some,
            decreases next - earlier,
        {
            assert(names[earlier as int] == components@[earlier as int]@.name);
            if components[earlier].name == component.name {
                seen = true;
            }
            earlier += 1;
        }
        let fault: Option<QmbedError> = if component.name.as_str().is_empty() || seen {
            Some(QmbedError::InvalidOptions(Reason::Text("component names must be nonempty and unique")))
        } else {
            match component.default {
                Some(value) if !value.is_finite() => Some(
                    QmbedError::InvalidOptions(Reason::Text("component defaults must be finite")),
                ),
                _ => None,
            }
        };
        if let Some(error) = fault {
            proof {
                lemma_term_components_error(list, (next + 1) as nat, list.len());
            }
            return Err(error);
        }
        next += 1;
    }
    Ok(())
}

/// First site of a list that lies outside it.
pub open spec fn first_outside(permutation: Seq<usize>, count: nat) -> Option<usize>
    decreases count,
{
    if count == 0 {
        None
    } else {
        match first_outside(permutation, (count - 1) as nat) {
            Some(site) => Some(site),
            None => if permutation[count - 1] >= permutation.len() {
                Some(permutation[count - 1])
            } else {
                None
            },
        }
    }
}

/// What keeps a list of sites from being a permutation, if anything.
pub open spec fn site_permutation_error(permutation: Seq<usize>) -> Option<QmbedError> {
    match first_outside(permutation, permutation.len()) {
        Some(site) => Some(QmbedError::InvalidSite { site, sites: permutation.len() as usize }),
        None => if permutation.no_duplicates() {
            None
        } else {
            Some(QmbedError::InvalidOptions(Reason::Text("site permutation must be bijective")))
        },
    }
}

proof fn lemma_first_outside(permutation: Seq<usize>, count: nat, later: nat)
    requires
        count <= later,
        first_outside(permutation, count) is Some,
    ensures
        first_outside(permutation, later) == first_outside(permutation, count),
    decreases later,
{
    if count < later {
        lemma_first_outside(permutation, count, (later - 1) as nat);
    }
}

/// Checks that a list of sites is a permutation.
pub fn validate_site_permutation(permutation: &Vec<usize>) -> (result: Result<()>)
    ensures
        match result {
            Ok(_) => site_permutation_error(permutation@) is None && permutation::is_permutation(
                permutation@,
            ),
            Err(error) => site_permutation_error(permutation@) == Some(error),
        },
{
    let mut next: usize = 0;
    while next < permutation.len()
        invariant
            next <= permutation@.len(),
            first_outside(permutation@, next as nat) is None,
            forall|k: int| 0 <= k < next ==> #[trigger] permutation@[k] < permutation@.len(),
        decreases permutation@.len() - next,
    {
        let site: usize = permutation[next];
        if site >= permutation.len() {
            proof {
                lemma_first_outside(permutation@, (next + 1) as nat, permutation@.len());
            }
            return Err(QmbedError::InvalidSite { site, sites: permutation.len() });
        }
        next += 1;
    }
    if !check_permutation(permutation) {
        return Err(QmbedError::InvalidOptions(Reason::Text("site permutation must be bijective")));
    }
    Ok(())
}

/// The first components, relabeled.
pub open spec fn relabeled_components<S>(
    components: Seq<TermComponentModel<S>>,
    permutation: Seq<usize>,
    count: nat,
) -> core::result::Result<Seq<TermComponentModel<S>>, QmbedError>
    decreases count,
{
    if count == 0 {
        Ok(Seq::empty())
    } else {
        match relabeled_components(components, permutation, (count - 1) as nat) {
            Err(error) => Err(error),
            Ok(before) => {
                let component = components[count - 1];
                match relabeled_terms(component.terms, permutation, component.terms.len()) {
                    Err(error) => Err(error),
                    Ok(terms) => Ok(
                        before.push(
                            TermComponentModel {
                                name: component.name,
                                terms,
                                default: component.default,
                            },
                        ),
                    ),
                }
            },
        }
    }
}

proof fn lemma_components_fail<S>(
    components: Seq<TermComponentModel<S>>,
    permutation: Seq<usize>,
    count: nat,
    later: nat,
)
    requires
        count <= later,
        relabeled_components(components, permutation, count) is Err,
    ensures
        relabeled_components(components, permutation, later) == relabeled_components(
            components,
            permutation,
            count,
        ),
    decreases later,
{
    if count < later {
        lemma_components_fail(components, permutation, count, (later - 1) as nat);
    }
}

fn relabel_components<S: Scalar>(
    components: &Vec<PackedTermComponent<S>>,
    permutation: &Vec<usize>,
) -> (result: Result<Vec<PackedTermComponent<S>>>)
    ensures
        match relabeled_components(
            term_components(components@),
            permutation@,
            components@.len(),
        ) {
            Ok(list) => result matches Ok(relabeled) && term_components(relabeled@) == list,
            Err(error) => result matches Err(found) && found == error,
        },
{
    let ghost given = term_components(components@);
    let mut list: Vec<PackedTermComponent<S>> = Vec::new();
    let mut next: usize = 0;
    assert(term_components(list@) =~= Seq::empty());
    while next < components.len()
        invariant
            next <= components@.len(),
            given == term_components(components@),
            relabeled_components(given, permutation@, next as nat) == Ok::<
                Seq<TermComponentModel<S>>,
                QmbedError,
            >(term_components(list@)),
        decreases components@.len() - next,
    {
        let component: &PackedTermComponent<S> = &components[next];
        assert(given[next as int] == component@);
        match relabel_terms(&component.terms, permutation) {
            Ok(terms) => {
                let ghost before = term_components(list@);
                let added: PackedTermComponent<S> = PackedTermComponent {
                    name: component.name.clone(),
                    terms,
                    default: component.default,
                };
                list.push(added);
                assert(term_components(list@) =~= before.push(added@));
            },
            Err(error) => {
                proof {
                    lemma_components_fail(given, permutation@, (next + 1) as nat, given.len());
                }
                return Err(error);
            },
        }
        next += 1;
    }
    Ok(list)
}

/// Whether a relabeling of terms and components succeeds.
pub open spec fn relabels<S>(
    terms: Seq<TermModel<S>>,
    components: Seq<TermComponentModel<S>>,
    permutation: Seq<usize>,
) -> bool {
    &&& site_permutation_error(permutation) is None
    &&& relabeled_terms(terms, permutation, terms.len()) is Ok
    &&& relabeled_components(components, permutation, components.len()) is Ok
}

/// The relabeling by one permutation after another.
pub open spec fn after_relabeling(previous: Option<Seq<usize>>, permutation: Seq<usize>) -> Seq<
    usize,
> {
    match previous {
        Some(first) => Seq::new(first.len(), |i: int| permutation[first[i] as int]),
        None => permutation,
    }
}

/// State labels that can number the rows of a full tensor-product space.
pub trait TensorState: Copy {
    /// The row of a state, where it fits the address space.
    spec fn spec_row(self) -> Option<usize>;

    /// The row of a state, where it fits the address space.
    fn row(&self) -> (row: Option<usize>)
        ensures
            row == self.spec_row(),
    ;
}

impl TensorState for u128 {
    open spec fn spec_row(self) -> Option<usize> {
        if self <= usize::MAX {
            Some(self as usize)
        } else {
            None
        }
    }

    fn row(&self) -> (row: Option<usize>) {
        if *self <= usize::MAX as u128 {
            Some(*self as usize)
        } else {
            None
        }
    }
}

impl TensorState for usize {
    open spec fn spec_row(self) -> Option<usize> {
        Some(self)
    }

    fn row(&self) -> (row: Option<usize>) {
        Some(*self)
    }
}

/// Rows of the first states in a space of the given dimension.
pub open spec fn tensor_rows<State: TensorState>(
    states: Seq<State>,
    full: usize,
    count: nat,
) -> core::result::Result<Seq<usize>, QmbedError>
    decreases count,
{
    if count == 0 {
        Ok(Seq::empty())
    } else {
        match tensor_rows(states, full, (count - 1) as nat) {
            Err(error) => Err(error),
            Ok(before) => match states[count - 1].spec_row() {
                None => Err(
                    QmbedError::DimensionMismatch(
                        Reason::Text("packed state does not fit the tensor-product index space"),
                    ),
                ),
                Some(row) => if row >= full {
                    Err(
                        QmbedError::DimensionMismatch(
                            Reason::Text("packed state exceeds the tensor-product index space"),
                        ),
                    )
                } else {
                    Ok(before.push(row))
                },
            },
        }
    }
}

proof fn lemma_tensor_rows_fail<State: TensorState>(
    states: Seq<State>,
    full: usize,
    count: nat,
    later: nat,
)
    requires
        count <= later,
        tensor_rows(states, full, count) is Err,
    ensures
        tensor_rows(states, full, later) == tensor_rows(states, full, count),
    decreases later,
{
    if count < later {
        lemma_tensor_rows_fail(states, full, count, (later - 1) as nat);
    }
}

proof fn lemma_tensor_rows<State: TensorState>(states: Seq<State>, full: usize, count: nat)
    ensures
        match tensor_rows(states, full, count) {
            Ok(rows) => rows.len() == count && forall|k: int|
                0 <= k < count ==> #[trigger] rows[k] < full,
            Err(_) => true,
        },
    decreases count,
{
    if count > 0 {
        lemma_tensor_rows(states, full, (count - 1) as nat);
    }
}

/// The first values of a vector at the given places of a longer vector.
pub open spec fn scattered<S: Scalar>(
    values: Seq<S>,
    rows: Seq<usize>,
    full: nat,
    count: nat,
) -> Seq<S>
    decreases count,
{
    if count == 0 {
        linear::zeros(full)
    } else {
        scattered(values, rows, full, (count - 1) as nat).update(
            rows[count - 1] as int,
            values[count - 1],
        )
    }
}

/// The first entries of a square matrix, row by row, at the given places of a larger one.
pub open spec fn scattered_matrix<S: Scalar>(
    values: Seq<S>,
    rows: Seq<usize>,
    full: nat,
    count: nat,
) -> Seq<S>
    decreases count,
{
    if count == 0 {
        linear::zeros(full * full)
    } else {
        let place = count - 1;
        let size = rows.len() as int;
        scattered_matrix(values, rows, full, (count - 1) as nat).update(
            rows[place / size] * full + rows[place % size],
            values[place],
        )
    }
}

/// A basis, the local terms of an operator on it, and named components.
#[derive(Debug)]
pub struct EdModel<B, S> {
    basis: B,
    terms: Vec<OperatorSpec<S>>,
    components: Vec<PackedTermComponent<S>>,
    checks: AssemblyChecks,
    site_permutation: Option<Vec<usize>>,
}

impl<B: Basis, S: Scalar> EdModel<B, S> {
    /// The basis.
    pub closed spec fn spec_basis(&self) -> B {
        self.basis
    }

    /// The fixed terms.
    pub closed spec fn spec_terms(&self) -> Seq<TermModel<S>> {
        terms_of(self.terms@)
    }

    /// The named components.
    pub closed spec fn spec_components(&self) -> Seq<TermComponentModel<S>> {
        term_components(self.components@)
    }

    /// What is asked of the matrices of the model.
    pub closed spec fn spec_checks(&self) -> AssemblyChecks {
        self.checks
    }

    /// Whether the operator strings of the model can be counted, where its checks count them.
    pub open spec fn checkable(&self) -> bool {
        self.spec_checks().particle_conservation ==> {
            &&& checks::countable(self.spec_terms())
            &&& forall|k: int|
                0 <= k < self.spec_components().len() ==> checks::countable(
                    (#[trigger] self.spec_components()[k]).terms,
                )
        }
    }

    /// The relabeling of sites since the model was made.
    pub closed spec fn spec_site_permutation(&self) -> Option<Seq<usize>> {
        match self.site_permutation {
            Some(permutation) => Some(permutation@),
            None => None,
        }
    }

    /// A basis that satisfies its invariant.
    pub closed spec fn valid(&self) -> bool {
        &&& self.basis.wf()
        &&& match self.site_permutation {
            Some(permutation) => permutation::is_permutation(permutation@),
            None => true,
        }
    }

    /// The basis of a valid model satisfies its invariant.
    pub proof fn lemma_valid(&self)
        requires
            self.valid(),
        ensures
            self.spec_basis().wf(),
    {
    }

    /// The model of the given terms on a basis.
    pub fn new(basis: B, terms: Vec<OperatorSpec<S>>) -> (model: Self)
        requires
            basis.wf(),
        ensures
            model.valid(),
            model.spec_basis() == basis,
            model.spec_terms() == terms_of(terms@),
            model.spec_components() == Seq::<TermComponentModel<S>>::empty(),
            model.spec_checks().hermiticity,
            model.spec_checks().particle_conservation,
            model.spec_checks().symmetry_compatibility,
            model.spec_site_permutation() is None,
    {
        let components: Vec<PackedTermComponent<S>> = Vec::new();
        assert(term_components(components@) =~= Seq::empty());
        EdModel {
            basis,
            terms,
            components,
            checks: AssemblyChecks::all(),
            site_permutation: None,
        }
    }

    /// The model with other checks.
    pub fn with_checks(self, checks: AssemblyChecks) -> (model: Self)
        ensures
            self.valid() ==> model.valid(),
            model.spec_basis() == self.spec_basis(),
            model.spec_terms() == self.spec_terms(),
            model.spec_components() == self.spec_components(),
            model.spec_checks() == checks,
            model.spec_site_permutation() == self.spec_site_permutation(),
    {
        EdModel {
            basis: self.basis,
            terms: self.terms,
            components: self.components,
            checks,
            site_permutation: self.site_permutation,
        }
    }

    /// What is asked of the matrices of the model.
    pub fn checks(&self) -> (checks: AssemblyChecks)
        ensures
            checks == self.spec_checks(),
    {
        self.checks
    }

    /// The model with the given named components in place of its own.
    pub fn with_components(self, components: Vec<PackedTermComponent<S>>) -> (result: Result<Self>)
        requires
            self.valid(),
        ensures
            match result {
                Ok(model) => {
                    &&& term_components_error(
                        term_components(components@),
                        components@.len(),
                    ) is None
                    &&& model.valid()
                    &&& model.spec_basis() == self.spec_basis()
                    &&& model.spec_terms() == self.spec_terms()
                    &&& model.spec_components() == term_components(components@)
                    &&& model.spec_checks() == self.spec_checks()
                    &&& model.spec_site_permutation() == self.spec_site_permutation()
                },
                Err(error) => term_components_error(
                    term_components(components@),
                    components@.len(),
                ) == Some(error),
            },
    {
        match validate_term_components(&components) {
            Ok(_) => Ok(
                EdModel {
                    basis: self.basis,
                    terms: self.terms,
                    components,
                    checks: self.checks,
                    site_permutation: self.site_permutation,
                },
            ),
            Err(error) => Err(error),
        }
    }

    /// The model with its sites relabeled.
    pub fn with_site_permutation(self, permutation: &Vec<usize>) -> (result: Result<Self>)
        requires
            self.valid(),
            relabels(self.spec_terms(), self.spec_components(), permutation@)
                && self.spec_site_permutation() is Some ==> self.spec_site_permutation()->0.len()
                <= permutation@.len(),
        ensures
            match result {
                Ok(model) => {
                    &&& site_permutation_error(permutation@) is None
                    &&& model.spec_basis() == self.spec_basis()
                    &&& relabeled_terms(
                        self.spec_terms(),
                        permutation@,
                        self.spec_terms().len(),
                    ) == Ok::<Seq<TermModel<S>>, QmbedError>(model.spec_terms())
                    &&& relabeled_components(
                        self.spec_components(),
                        permutation@,
                        self.spec_components().len(),
                    ) == Ok::<Seq<TermComponentModel<S>>, QmbedError>(model.spec_components())
                    &&& model.spec_checks() == self.spec_checks()
                    &&& model.spec_site_permutation() == Some(
                        after_relabeling(self.spec_site_permutation(), permutation@),
                    )
                    &&& (self.spec_site_permutation() is None || self.spec_site_permutation()->0.len()
                        == permutation@.len()) ==> model.valid()
                },
                Err(error) => match site_permutation_error(permutation@) {
                    Some(expected) => error == expected,
                    None => match relabeled_terms(
                        self.spec_terms(),
                        permutation@,
                        self.spec_terms().len(),
                    ) {
                        Err(expected) => error == expected,
                        Ok(_) => relabeled_components(
                            self.spec_components(),
                            permutation@,
                            self.spec_components().len(),
                        ) == Err::<Seq<TermComponentModel<S>>, QmbedError>(error),
                    },
                },
            },
    {
        if let Err(error) = validate_site_permutation(permutation) {
            return Err(error);
        }
        let terms: Vec<OperatorSpec<S>> = match relabel_terms(&self.terms, permutation) {
            Ok(terms) => terms,
            Err(error) => {
                return Err(error);
            },
        };
        let components: Vec<PackedTermComponent<S>> = match relabel_components(
            &self.components,
            permutation,
        ) {
            Ok(components) => components,
            Err(error) => {
                return Err(error);
            },
        };
        let composed: Vec<usize> = match &self.site_permutation {
            Some(previous) => compose(previous, permutation),
            None => copy_list(permutation),
        };
        Ok(
            EdModel {
                basis: self.basis,
                terms,
                components,
                checks: self.checks,
                site_permutation: Some(composed),
            },
        )
    }

    pub fn basis(&self) -> (basis: &B)
        ensures
            *basis == self.spec_basis(),
    {
        &self.basis
    }

    pub fn terms(&self) -> (terms: &Vec<OperatorSpec<S>>)
        ensures
            terms_of(terms@) == self.spec_terms(),
    {
        &self.terms
    }

    pub fn components(&self) -> (components: &Vec<PackedTermComponent<S>>)
        ensures
            term_components(components@) == self.spec_components(),
    {
        &self.components
    }

    /// Names of the components in order.
    pub fn component_names(&self) -> (names: Vec<String>)
        ensures
            names@.len() == self.spec_components().len(),
            forall|k: int|
                0 <= k < names@.len() ==> (#[trigger] names@[k])@ == self.spec_components()[k].name,
    {
        let mut names: Vec<String> = Vec::new();
        let mut next: usize = 0;
        while next < self.components.len()
            invariant
                next <= self.components@.len(),
                names@.len() == next,
                forall|k: int|
                    0 <= k < next ==> (#[trigger] names@[k])@ == self.components@[k]@.name,
            decreases self.components@.len() - next,
        {
            names.push(self.components[next].name().clone());
            next += 1;
        }
        names
    }

    /// Number of basis states.
    pub fn dimension(&self) -> (dimension: usize)
        requires
            self.valid(),
        ensures
            dimension == self.spec_basis().spec_states().len(),
    {
        self.basis.len()
    }

    /// The basis states in order.
    pub fn states(&self) -> (result: Result<Vec<B::State>>)
        requires
            self.valid(),
        ensures
            result matches Ok(states) && states@ == self.spec_basis().spec_states(),
    {
        let length: usize = self.basis.len();
        let mut states: Vec<B::State> = Vec::new();
        let mut next: usize = 0;
        while next < length
            invariant
                next <= length,
                self.valid(),
                length == self.spec_basis().spec_states().len(),
                states@ == self.spec_basis().spec_states().take(next as int),
            decreases length - next,
        {
            match self.basis.state(next) {
                Ok(state) => {
                    states.push(state);
                },
                Err(error) => {
                    return Err(error);
                },
            }
            next += 1;
            assert(states@ =~= self.spec_basis().spec_states().take(next as int));
        }
        assert(states@ =~= self.spec_basis().spec_states());
        Ok(states)
    }

    /// Terms in the site labels of the model.
    pub fn prepare_terms(&self, terms: &Vec<OperatorSpec<S>>) -> (result: Result<
        Vec<OperatorSpec<S>>,
    >)
        ensures
            match self.spec_site_permutation() {
                Some(permutation) => match relabeled_terms(
                    terms_of(terms@),
                    permutation,
                    terms@.len(),
                ) {
                    Ok(list) => result matches Ok(prepared) && terms_of(prepared@) == list,
                    Err(error) => result matches Err(found) && found == error,
                },
                None => result matches Ok(prepared) && terms_of(prepared@) == terms_of(terms@),
            },
    {
        match &self.site_permutation {
            Some(permutation) => relabel_terms(terms, permutation),
            None => {
                let mut copies: Vec<OperatorSpec<S>> = Vec::new();
                let mut next: usize = 0;
                while next < terms.len()
                    invariant
                        next <= terms@.len(),
                        copies@.len() == next,
                        forall|k: int| 0 <= k < next ==> (#[trigger] copies@[k])@ == terms@[k]@,
                    decreases terms@.len() - next,
                {
                    copies.push(terms[next].copied());
                    next += 1;
                }
                assert(terms_of(copies@) =~= terms_of(terms@));
                Ok(copies)
            },
        }
    }

    /// Checks that two models label their sites in the same way.
    pub fn ensure_same_site_convention(&self, other: &Self) -> (result: Result<()>)
        ensures
            match result {
                Ok(_) => self.spec_site_permutation() == other.spec_site_permutation(),
                Err(error) => {
                    &&& self.spec_site_permutation() != other.spec_site_permutation()
                    &&& error == QmbedError::InvalidOptions(
                        Reason::Text("models must use the same site permutation for cross-basis operations"),
                    )
                },
            },
    {
        let same: bool = match (&self.site_permutation, &other.site_permutation) {
            (Some(left), Some(right)) => same_list(left, right),
            (None, None) => true,
            _ => false,
        };
        if same {
            Ok(())
        } else {
            Err(
                QmbedError::InvalidOptions(
                    Reason::Text("models must use the same site permutation for cross-basis operations"),
                ),
            )
        }
    }
}

fn same_list(left: &Vec<usize>, right: &Vec<usize>) -> (answer: bool)
    ensures
        answer == (left@ == right@),
{
    if left.len() != right.len() {
        return false;
    }
    let mut next: usize = 0;
    while next < left.len()
        invariant
            next <= left@.len(),
            left@.len() == right@.len(),
            forall|k: int| 0 <= k < next ==> #[trigger] left@[k] == right@[k],
        decreases left@.len() - next,
    {
        if left[next] != right[next] {
            return false;
        }
        next += 1;
    }
    assert(left@ =~= right@);
    true
}

fn compose(first: &Vec<usize>, second: &Vec<usize>) -> (composed: Vec<usize>)
    requires
        permutation::is_permutation(first@),
        permutation::is_permutation(second@),
        first@.len() <= second@.len(),
    ensures
        composed@ == after_relabeling(Some(first@), second@),
        first@.len() == second@.len() ==> permutation::is_permutation(composed@),
{
    let mut composed: Vec<usize> = Vec::new();
    let mut next: usize = 0;
    while next < first.len()
        invariant
            next <= first@.len() <= second@.len(),
            permutation::is_permutation(first@),
            composed@.len() == next,
            forall|i: int|
                0 <= i < next ==> #[trigger] composed@[i] == second@[first@[i] as int],
        decreases first@.len() - next,
    {
        assert(first@[next as int] < first@.len());
        composed.push(second[first[next]]);
        next += 1;
    }
    proof {
        assert(composed@ =~= after_relabeling(Some(first@), second@));
        if first@.len() == second@.len() {
            assert forall|i: int| 0 <= i < composed@.len() implies #[trigger] composed@[i]
                < composed@.len() by {
                assert(first@[i] < first@.len());
                assert(second@[first@[i] as int] < second@.len());
            }
            assert forall|i: int, j: int|
                0 <= i < composed@.len() && 0 <= j < composed@.len() && i != j implies composed@[i]
                != composed@[j] by {
                assert(first@[i] < first@.len() && first@[j] < first@.len());
                assert(first@[i] != first@[j]);
                assert(second@[first@[i] as int] != second@[first@[j] as int]);
            }
        }
    }
    composed
}

impl<B: Basis, S: Scalar> EdModel<B, S> where B::State: TensorState {
    /// Rows of the basis states in a space of the given dimension.
    fn tensor_rows(&self, full_dimension: usize) -> (result: Result<Vec<usize>>)
        requires
            self.valid(),
        ensures
            linear::vector_is(
                result,
                tensor_rows(
                    self.spec_basis().spec_states(),
                    full_dimension,
                    self.spec_basis().spec_states().len(),
                ),
            ),
    {
        let ghost states = self.spec_basis().spec_states();
        let length: usize = self.basis.len();
        let mut rows: Vec<usize> = Vec::new();
        let mut next: usize = 0;
        while next < length
            invariant
                next <= length,
                self.valid(),
                states == self.spec_basis().spec_states(),
                length == states.len(),
                tensor_rows(states, full_dimension, next as nat) == Ok::<Seq<usize>, QmbedError>(
                    rows@,
                ),
            decreases length - next,
        {
            let fault: QmbedError = match self.basis.state(next) {
                Ok(state) => match state.row() {
                    Some(row) => {
                        if row < full_dimension {
                            rows.push(row);
                            next += 1;
                            continue;
                        }
                        QmbedError::DimensionMismatch(
                            Reason::Text("packed state exceeds the tensor-product index space"),
                        )
                    },
                    None => QmbedError::DimensionMismatch(
                        Reason::Text("packed state does not fit the tensor-product index space"),
                    ),
                },
                Err(error) => error,
            };
            proof {
                lemma_tensor_rows_fail(states, full_dimension, (next + 1) as nat, states.len());
            }
            return Err(fault);
        }
        Ok(rows)
    }

    /// A vector in basis order, laid out by packed state.
    pub fn scatter_state_vector(&self, values: &Vec<S>, full_dimension: usize) -> (result: Result<
        Vec<S>,
    >)
        requires
            self.valid(),
        ensures
            linear::vector_is(
                result,
                if values@.len() != self.spec_basis().spec_states().len() {
                    Err(
                        QmbedError::DimensionMismatch(
                            Reason::Text("state vector does not match the basis dimension"),
                        ),
                    )
                } else {
                    match tensor_rows(
                        self.spec_basis().spec_states(),
                        full_dimension,
                        values@.len(),
                    ) {
                        Ok(rows) => Ok(
                            scattered(values@, rows, full_dimension as nat, values@.len()),
                        ),
                        Err(error) => Err(error),
                    }
                },
            ),
    {
        if values.len() != self.basis.len() {
            return Err(
                QmbedError::DimensionMismatch(Reason::Text("state vector does not match the basis dimension")),
            );
        }
        let rows: Vec<usize> = match self.tensor_rows(full_dimension) {
            Ok(rows) => rows,
            Err(error) => {
                return Err(error);
            },
        };
        proof {
            lemma_tensor_rows(
                self.spec_basis().spec_states(),
                full_dimension,
                values@.len(),
            );
        }
        let mut laid_out: Vec<S> = zero_vector(full_dimension);
        let mut next: usize = 0;
        while next < values.len()
            invariant
                next <= values@.len(),
                rows@.len() == values@.len(),
                forall|k: int| 0 <= k < rows@.len() ==> #[trigger] rows@[k] < full_dimension,
                laid_out@.len() == full_dimension,
                laid_out@ == scattered(values@, rows@, full_dimension as nat, next as nat),
            decreases values@.len() - next,
        {
            let row: usize = rows[next];
            laid_out[row] = values[next];
            next += 1;
        }
        Ok(laid_out)
    }

    /// A matrix in basis order, row by row, with both axes laid out by packed state.
    pub fn scatter_density(&self, values: &Vec<S>, full_dimension: usize) -> (result: Result<
        Vec<S>,
    >)
        requires
            self.valid(),
            values@.len() == self.spec_basis().spec_states().len()
                * self.spec_basis().spec_states().len() && tensor_rows(
                self.spec_basis().spec_states(),
                full_dimension,
                self.spec_basis().spec_states().len(),
            ) is Ok ==> full_dimension * full_dimension <= usize::MAX,
        ensures
            linear::vector_is(
                result,
                if values@.len() != self.spec_basis().spec_states().len()
                    * self.spec_basis().spec_states().len() {
                    Err(
                        QmbedError::DimensionMismatch(
                            Reason::Text("density matrix does not match the basis dimension"),
                        ),
                    )
                } else {
                    match tensor_rows(
                        self.spec_basis().spec_states(),
                        full_dimension,
                        self.spec_basis().spec_states().len(),
                    ) {
                        Ok(rows) => Ok(
                            scattered_matrix(
                                values@,
                                rows,
                                full_dimension as nat,
                                self.spec_basis().spec_states().len()
                                    * self.spec_basis().spec_states().len(),
                            ),
                        ),
                        Err(error) => Err(error),
                    }
                },
            ),
    {
        let dimension: usize = self.basis.len();
        let found: usize = values.len();
        let expected: Option<usize> = dimension.checked_mul(dimension);
        if expected.is_none() || expected.unwrap() != found {
            return Err(
                QmbedError::DimensionMismatch(Reason::Text("density matrix does not match the basis dimension")),
            );
        }
        let rows: Vec<usize> = match self.tensor_rows(full_dimension) {
            Ok(rows) => rows,
            Err(error) => {
                return Err(error);
            },
        };
        proof {
            lemma_tensor_rows(
                self.spec_basis().spec_states(),
                full_dimension,
                dimension as nat,
            );
        }
        let mut laid_out: Vec<S> = zero_vector(full_dimension * full_dimension);
        let mut row: usize = 0;
        while row < dimension
            invariant
                row <= dimension,
                rows@.len() == dimension,
                found == values@.len(),
                found == dimension * dimension,
                full_dimension * full_dimension <= usize::MAX,
                forall|k: int| 0 <= k < rows@.len() ==> #[trigger] rows@[k] < full_dimension,
                laid_out@.len() == full_dimension * full_dimension,
                laid_out@ == scattered_matrix(
                    values@,
                    rows@,
                    full_dimension as nat,
                    (row * dimension) as nat,
                ),
            decreases dimension - row,
        {
            let mut column: usize = 0;
            while column < dimension
                invariant
                    row < dimension,
                    column <= dimension,
                    rows@.len() == dimension,
                    found == values@.len(),
                    found == dimension * dimension,
                    full_dimension * full_dimension <= usize::MAX,
                    forall|k: int| 0 <= k < rows@.len() ==> #[trigger] rows@[k] < full_dimension,
                    laid_out@.len() == full_dimension * full_dimension,
                    laid_out@ == scattered_matrix(
                        values@,
                        rows@,
                        full_dimension as nat,
                        (row * dimension + column) as nat,
                    ),
                decreases dimension - column,
            {
                let ghost place = row * dimension + column;
                proof {
                    lemma_matrix_place(
                        row as nat,
                        column as nat,
                        dimension as nat,
                        rows@[row as int] as nat,
                        rows@[column as int] as nat,
                        full_dimension as nat,
                    );
                }
                laid_out[rows[row] * full_dimension + rows[column]] = values[row * dimension
                    + column];
                column += 1;
            }
            assert(row * dimension + dimension == (row + 1) * dimension) by (nonlinear_arith);
            row += 1;
        }
        Ok(laid_out)
    }
}

proof fn lemma_matrix_place(
    row: nat,
    column: nat,
    size: nat,
    target_row: nat,
    target_column: nat,
    full: nat,
)
    requires
        row < size,
        column < size,
        target_row < full,
        target_column < full,
    ensures
        row * size + column < size * size,
        (row * size + column) as int / size as int == row,
        (row * size + column) as int % size as int == column,
        target_row * full + target_column < full * full,
        target_row * full <= target_row * full + target_column,
{
    vstd::arithmetic::div_mod::lemma_fundamental_div_mod_converse(
        (row * size + column) as int,
        size as int,
        row as int,
        column as int,
    );
    assert(row * size + column < size * size) by (nonlinear_arith)
        requires
            row < size,
            column < size,
    ;
    assert(target_row * full + target_column < full * full) by (nonlinear_arith)
        requires
            target_row < full,
            target_column < full,
    ;
}

proof fn lemma_sites_compose(
    sites: Seq<usize>,
    first: Seq<usize>,
    second: Seq<usize>,
    once: Seq<usize>,
    count: nat,
)
    requires
        permutation::is_permutation(first),
        first.len() == second.len(),
        count <= sites.len(),
        relabeled_sites(sites, first, count) == Ok::<Seq<usize>, QmbedError>(once),
    ensures
        once.len() == count,
        relabeled_sites(once, second, count) == relabeled_sites(
            sites,
            after_relabeling(Some(first), second),
            count,
        ),
        relabeled_sites(once, second, count) is Ok,
    decreases count,
{
    if count > 0 {
        let before = relabeled_sites(sites, first, (count - 1) as nat)->Ok_0;
        lemma_sites_compose(sites, first, second, before, (count - 1) as nat);
        let site = sites[count - 1];
        assert(first[site as int] < first.len());
        assert(once == before.push(first[site as int]));
        lemma_sites_prefix(before, once, second, (count - 1) as nat);
        assert(once[count - 1] == first[site as int]);
    }
}

proof fn lemma_sites_prefix(
    sites: Seq<usize>,
    longer: Seq<usize>,
    permutation: Seq<usize>,
    count: nat,
)
    requires
        count <= sites.len() <= longer.len(),
        forall|k: int| 0 <= k < sites.len() ==> #[trigger] sites[k] == longer[k],
    ensures
        relabeled_sites(sites, permutation, count) == relabeled_sites(longer, permutation, count),
    decreases count,
{
    if count > 0 {
        lemma_sites_prefix(sites, longer, permutation, (count - 1) as nat);
        assert(sites[count - 1] == longer[count - 1]);
    }
}

proof fn lemma_couplings_prefix<S>(
    couplings: Seq<CouplingModel<S>>,
    longer: Seq<CouplingModel<S>>,
    permutation: Seq<usize>,
    count: nat,
)
    requires
        count <= couplings.len() <= longer.len(),
        forall|k: int| 0 <= k < couplings.len() ==> #[trigger] couplings[k] == longer[k],
    ensures
        relabeled_couplings(couplings, permutation, count) == relabeled_couplings(
            longer,
            permutation,
            count,
        ),
    decreases count,
{
    if count > 0 {
        lemma_couplings_prefix(couplings, longer, permutation, (count - 1) as nat);
        assert(couplings[count - 1] == longer[count - 1]);
    }
}

proof fn lemma_couplings_compose<S>(
    couplings: Seq<CouplingModel<S>>,
    first: Seq<usize>,
    second: Seq<usize>,
    once: Seq<CouplingModel<S>>,
    count: nat,
)
    requires
        permutation::is_permutation(first),
        first.len() == second.len(),
        count <= couplings.len(),
        relabeled_couplings(couplings, first, count) == Ok::<Seq<CouplingModel<S>>, QmbedError>(
            once,
        ),
    ensures
        once.len() == count,
        relabeled_couplings(once, second, count) == relabeled_couplings(
            couplings,
            after_relabeling(Some(first), second),
            count,
        ),
        relabeled_couplings(once, second, count) is Ok,
    decreases count,
{
    if count > 0 {
        let before = relabeled_couplings(couplings, first, (count - 1) as nat)->Ok_0;
        lemma_couplings_compose(couplings, first, second, before, (count - 1) as nat);
        let coupling = couplings[count - 1];
        let sites = relabeled_sites(coupling.sites, first, coupling.sites.len())->Ok_0;
        lemma_sites_compose(coupling.sites, first, second, sites, coupling.sites.len());
        lemma_couplings_prefix(before, once, second, (count - 1) as nat);
        assert(once[count - 1].sites == sites);
    }
}

proof fn lemma_terms_prefix<S>(
    terms: Seq<TermModel<S>>,
    longer: Seq<TermModel<S>>,
    permutation: Seq<usize>,
    count: nat,
)
    requires
        count <= terms.len() <= longer.len(),
        forall|k: int| 0 <= k < terms.len() ==> #[trigger] terms[k] == longer[k],
    ensures
        relabeled_terms(terms, permutation, count) == relabeled_terms(longer, permutation, count),
    decreases count,
{
    if count > 0 {
        lemma_terms_prefix(terms, longer, permutation, (count - 1) as nat);
        assert(terms[count - 1] == longer[count - 1]);
    }
}

proof fn lemma_terms_compose<S>(
    terms: Seq<TermModel<S>>,
    first: Seq<usize>,
    second: Seq<usize>,
    once: Seq<TermModel<S>>,
    count: nat,
)
    requires
        permutation::is_permutation(first),
        first.len() == second.len(),
        count <= terms.len(),
        relabeled_terms(terms, first, count) == Ok::<Seq<TermModel<S>>, QmbedError>(once),
    ensures
        once.len() == count,
        relabeled_terms(once, second, count) == relabeled_terms(
            terms,
            after_relabeling(Some(first), second),
            count,
        ),
        relabeled_terms(once, second, count) is Ok,
    decreases count,
{
    if count > 0 {
        let before = relabeled_terms(terms, first, (count - 1) as nat)->Ok_0;
        lemma_terms_compose(terms, first, second, before, (count - 1) as nat);
        let term = terms[count - 1];
        let couplings = relabeled_couplings(
            term.couplings,
            first,
            term.couplings.len(),
        )->Ok_0;
        lemma_couplings_compose(term.couplings, first, second, couplings, term.couplings.len());
        lemma_terms_prefix(before, once, second, (count - 1) as nat);
        assert(once[count - 1].couplings == couplings);
    }
}

/// Relabeling sites by one permutation and then by another relabels them by the
/// composition of the two, which is what a model remembers.
pub proof fn law_relabelings_compose<S>(
    terms: Seq<TermModel<S>>,
    first: Seq<usize>,
    second: Seq<usize>,
    once: Seq<TermModel<S>>,
)
    requires
        permutation::is_permutation(first),
        permutation::is_permutation(second),
        first.len() == second.len(),
        relabeled_terms(terms, first, terms.len()) == Ok::<Seq<TermModel<S>>, QmbedError>(once),
    ensures
        relabeled_terms(once, second, once.len()) == relabeled_terms(
            terms,
            after_relabeling(Some(first), second),
            terms.len(),
        ),
        relabeled_terms(once, second, once.len()) is Ok,
{
    lemma_terms_compose(terms, first, second, once, terms.len());
}

} // verus!

//! What is asked of an operator when it is assembled.

use vstd::prelude::*;

use crate::basis::Basis;
use crate::error::{QmbedError, Result};
use crate::linear::Scalar;
use crate::model;
use crate::model::{Coupling, CouplingModel, OperatorSpec, TermModel};

verus! {

/// What is asked of an operator when it is assembled.
#[derive(Clone, Copy, Debug, PartialEq, Eq)]
pub struct AssemblyChecks {
    /// The matrix has to be its own adjoint.
    pub hermiticity: bool,
    /// Every term has to keep the particle sectors of the basis.
    pub particle_conservation: bool,
    /// The operator is meant to respect the symmetry of a reduced basis. Assembly projects on the
    /// sector whether this is set or not.
    pub symmetry_compatibility: bool,
}

impl AssemblyChecks {
    /// Everything is asked.
    pub fn all() -> (checks: Self)
        ensures
            checks.hermiticity,
            checks.particle_conservation,
            checks.symmetry_compatibility,
    {
        AssemblyChecks {
            hermiticity: true,
            particle_conservation: true,
            symmetry_compatibility: true,
        }
    }

    /// Nothing is asked.
    pub fn none() -> (checks: Self)
        ensures
            checks == Self::nothing(),
    {
        AssemblyChecks {
            hermiticity: false,
            particle_conservation: false,
            symmetry_compatibility: false,
        }
    }

    /// Nothing is asked.
    pub open spec fn nothing() -> Self {
        AssemblyChecks {
            hermiticity: false,
            particle_conservation: false,
            symmetry_compatibility: false,
        }
    }

    /// What is asked of the components of a family, which need not be Hermitian one by one.
    pub open spec fn of_component(self) -> Self {
        AssemblyChecks { hermiticity: false, ..self }
    }

    /// What is asked of the components of a family, which need not be Hermitian one by one.
    pub fn for_component(self) -> (checks: Self)
        ensures
            checks == self.of_component(),
    {
        AssemblyChecks { hermiticity: false, ..self }
    }
}

/// Whether the operator strings of terms can be counted.
pub open spec fn countable<S>(terms: Seq<TermModel<S>>) -> bool {
    forall|i: int| 0 <= i < terms.len() ==> (#[trigger] terms[i]).operator.len() < i32::MAX
}

/// The refusal of a term that leads out of the particle sectors.
pub open spec fn not_conserved() -> QmbedError {
    QmbedError::IncompatibleSymmetry("an operator term leaves the particle sectors of the basis")
}

/// Why the first couplings of an operator string do not keep the particle sectors of a basis, if
/// they do not.
pub open spec fn couplings_error<B: Basis, S>(
    basis: B,
    operator: Seq<char>,
    couplings: Seq<CouplingModel<S>>,
    count: nat,
) -> Option<QmbedError>
    decreases count,
{
    if count == 0 {
        None
    } else {
        match couplings_error(basis, operator, couplings, (count - 1) as nat) {
            Some(error) => Some(error),
            None => match basis.spec_preserves_on_sites(operator, couplings[count - 1].sites) {
                Err(error) => Some(error),
                Ok(false) => Some(not_conserved()),
                Ok(true) => None,
            },
        }
    }
}

/// Why the first terms do not keep the particle sectors of a basis, if they do not.
pub open spec fn terms_error<B: Basis, S>(
    basis: B,
    terms: Seq<TermModel<S>>,
    count: nat,
) -> Option<QmbedError>
    decreases count,
{
    if count == 0 {
        None
    } else {
        let term = terms[count - 1];
        match terms_error(basis, terms, (count - 1) as nat) {
            Some(error) => Some(error),
            None => couplings_error(basis, term.operator, term.couplings, term.couplings.len()),
        }
    }
}

/// Why terms are refused before they are assembled, if they are.
pub open spec fn refusal<B: Basis, S>(
    basis: B,
    terms: Seq<TermModel<S>>,
    checks: AssemblyChecks,
) -> Option<QmbedError> {
    if checks.particle_conservation {
        terms_error(basis, terms, terms.len())
    } else {
        None
    }
}

proof fn lemma_couplings_error_stays<B: Basis, S>(
    basis: B,
    operator: Seq<char>,
    couplings: Seq<CouplingModel<S>>,
    count: nat,
    later: nat,
)
    requires
        count <= later,
        couplings_error(basis, operator, couplings, count) is Some,
    ensures
        couplings_error(basis, operator, couplings, later) == couplings_error(
            basis,
            operator,
            couplings,
            count,
        ),
    decreases later,
{
    if count < later {
        lemma_couplings_error_stays(basis, operator, couplings, count, (later - 1) as nat);
    }
}

proof fn lemma_terms_error_stays<B: Basis, S>(
    basis: B,
    terms: Seq<TermModel<S>>,
    count: nat,
    later: nat,
)
    requires
        count <= later,
        terms_error(basis, terms, count) is Some,
    ensures
        terms_error(basis, terms, later) == terms_error(basis, terms, count),
    decreases later,
{
    if count < later {
        lemma_terms_error_stays(basis, terms, count, (later - 1) as nat);
    }
}

fn check_couplings<B: Basis, S: Scalar>(basis: &B, term: &OperatorSpec<S>) -> (result: Result<()>)
    requires
        basis.wf(),
        term@.operator.len() < i32::MAX,
    ensures
        match couplings_error(*basis, term@.operator, term@.couplings, term@.couplings.len()) {
            Some(error) => result == Err::<(), QmbedError>(error),
            None => result is Ok,
        },
{
    let couplings: &Vec<Coupling<S>> = term.couplings();
    let ghost models = term@.couplings;
    let mut next: usize = 0;
    while next < couplings.len()
        invariant
            next <= couplings@.len(),
            basis.wf(),
            term@.operator.len() < i32::MAX,
            models == term@.couplings,
            models == model::couplings_of(couplings@),
            couplings_error(*basis, term@.operator, models, next as nat) is None,
        decreases couplings@.len() - next,
    {
        assert(models[next as int] == couplings@[next as int]@);
        let kept: Result<bool> = basis.operator_preserves_particle_sector_on_sites(
            term.operator().as_str(),
            couplings[next].sites.as_slice(),
        );
        if let Ok(true) = kept {
        } else {
            proof {
                lemma_couplings_error_stays(
                    *basis,
                    term@.operator,
                    models,
                    (next + 1) as nat,
                    models.len(),
                );
            }
            return match kept {
                Ok(_) => Err(
                    QmbedError::IncompatibleSymmetry(
                        "an operator term leaves the particle sectors of the basis",
                    ),
                ),
                Err(error) => Err(error),
            };
        }
        next += 1;
    }
    Ok(())
}

/// Refuses terms that do not meet what is asked of them before they are assembled.
pub fn check_terms<B: Basis, S: Scalar>(
    basis: &B,
    terms: &Vec<OperatorSpec<S>>,
    checks: AssemblyChecks,
) -> (result: Result<()>)
    requires
        basis.wf(),
        checks.particle_conservation ==> countable(model::terms_of(terms@)),
    ensures
        match refusal(*basis, model::terms_of(terms@), checks) {
            Some(error) => result == Err::<(), QmbedError>(error),
            None => result is Ok,
        },
{
    if !checks.particle_conservation {
        return Ok(());
    }
    let ghost models = model::terms_of(terms@);
    let mut next: usize = 0;
    while next < terms.len()
        invariant
            next <= terms@.len(),
            basis.wf(),
            checks.particle_conservation,
            models == model::terms_of(terms@),
            countable(models),
            terms_error(*basis, models, next as nat) is None,
        decreases terms@.len() - next,
    {
        assert(models[next as int] == terms@[next as int]@);
        if let Err(error) = check_couplings(basis, &terms[next]) {
            proof {
                lemma_terms_error_stays(*basis, models, (next + 1) as nat, models.len());
            }
            return Err(error);
        }
        next += 1;
    }
    Ok(())
}

/// Two lists of terms that are not refused are not refused together.
pub proof fn lemma_joined_terms<B: Basis, S>(
    basis: B,
    left: Seq<TermModel<S>>,
    right: Seq<TermModel<S>>,
    count: nat,
)
    requires
        terms_error(basis, left, left.len()) is None,
        count <= left.len() + right.len(),
        count > left.len() ==> terms_error(basis, right, (count - left.len()) as nat) is None,
    ensures
        terms_error(basis, left + right, count) is None,
    decreases count,
{
    if count > 0 {
        let before = (count - 1) as nat;
        if count > left.len() {
            lemma_joined_terms(basis, left, right, before);
            assert((left + right)[before as int] == right[before - left.len()]);
        } else {
            if terms_error(basis, left, count) is Some {
                lemma_terms_error_stays(basis, left, count, left.len());
            }
            lemma_joined_terms(basis, left, right, before);
            assert((left + right)[before as int] == left[before as int]);
        }
    }
}

} // verus!

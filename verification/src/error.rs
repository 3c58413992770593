//! Failures reported by the library.

use vstd::prelude::*;

verus! {

/// What is wrong with an operator string.
#[derive(Clone, Copy, Debug, PartialEq, Eq)]
pub enum OperatorFault {
    /// The string as a whole holds a symbol that is not understood.
    Whole,
    /// This symbol is not understood.
    Symbol(char),
    /// The string breaks a rule on separators.
    Text(&'static str),
    /// The string has another number of factors than the basis.
    Factors { found: usize, expected: usize },
}

/// Why something is refused.
///
/// A message is a fixed text, so a contract can name the exact value that is returned. Where a
/// report depends on the input, the numbers stand in the variant itself.
#[derive(Clone, Copy, Debug, PartialEq, Eq)]
pub enum Reason {
    /// A fixed message.
    Text(&'static str),
    /// A list of `found` entries where `expected` are needed.
    Length { what: &'static str, found: usize, expected: usize },
    /// The operator string and its site list have different lengths.
    Arity { symbols: usize, sites: usize },
    /// An integer of `bits` bits does not fit the requested width.
    IntegerTooWide { bits: u64, width: usize },
    /// An integer of `bits` bits does not fit the fixed width of a state type.
    StateTooNarrow { bits: u64, width: usize },
    /// A number of sites outside `1..=most`.
    SitesOutOfRange { most: usize },
    /// A site that has to be binary is not.
    NotBinary { site: usize },
    /// A parameter name that is empty or repeats an earlier one.
    ParameterName { index: usize },
    /// A parameter value that is not a number.
    NotFinite { what: &'static str, index: usize },
    /// A value of a real parameter that is not real.
    NotReal { what: &'static str, index: usize },
    /// An operator component that should be Hermitian is not.
    NotHermitian { component: usize },
    /// A parameter whose name no component has.
    UnknownParameter { index: usize },
    /// A component without a default for which no coefficient is given.
    MissingParameter { component: usize },
    /// A component name that no component has.
    UnknownComponent,
    /// Two blocks that give a component different defaults.
    InconsistentDefault { block: usize, component: usize },
    /// A projector whose shape does not fit its block.
    Shape { index: usize, found: (usize, usize), expected: (usize, usize) },
    /// Two projector columns that overlap, or one that is not normalized.
    NotIsometric { target: usize, target_column: usize, source: usize, source_column: usize },
}

/// Everything a basis, a symmetry or a layout can refuse.
#[derive(Clone, Copy, Debug, PartialEq, Eq)]
pub enum QmbedError {
    /// A quantum-number sector that does not exist or is malformed.
    InvalidSector(Reason),
    /// A request beyond the capacity of the packed representation.
    UnsupportedBackend(Reason),
    /// The state is not one of the basis states, or the index is out of range.
    StateNotInBasis,
    /// A site outside `0..sites`.
    InvalidSite { site: usize, sites: usize },
    /// An operator string that is not understood.
    InvalidOperator(OperatorFault),
    /// A coupling list that does not fit its operator.
    InvalidCoupling(Reason),
    /// Inconsistent options.
    InvalidOptions(Reason),
    /// Symmetries that cannot share a sector, or a map that is not a symmetry.
    IncompatibleSymmetry(&'static str),
    /// A broken internal relation.
    InternalState(&'static str),
    /// Two sizes that should agree do not.
    DimensionMismatch(Reason),
    /// A vector or a matrix of too small a rank.
    RankDeficient,
    /// An operator that should be Hermitian is not.
    NonHermitian,
    /// A solver that stopped before its result was good enough.
    NonConvergence { iterations: usize },
}

/// Result of a fallible operation of the library.
pub type Result<T> = core::result::Result<T, QmbedError>;

} // verus!

//! The ways in which an optimization fails.

use vstd::prelude::*;

verus! {

/// Why an optimization gave no plan.
#[derive(Clone, Copy, Debug, PartialEq, Eq, Structural)]
pub enum OptimizerError {
    /// The logical plan holds a node whose number of inputs is not that of
    /// its operator.
    MalformedInput,
    /// No physical plan delivers the required properties.
    NoPlan,
    /// A rule or a property handed the memo something that breaks its rules.
    InvariantViolation,
}

} // verus!

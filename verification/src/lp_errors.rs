//! Errors raised at the construction and normalization boundary.  The
//! solver itself never fails at run time: every validated input produces
//! either a feasible incumbent or the positive-infinity sentinel.
use vstd::prelude::*;

verus! {

/// What can go wrong while reading a textual problem description and
/// bringing it into the solver's standard form.
pub enum LpErrors {
    /// A variable is not restricted to zero/one.
    VarNotBinary,
    /// The problem has no variables.
    NoVars,
    /// The objective is missing.
    NoObjective,
    /// A constraint kind outside the supported set was met.
    UnexpectedConstraintType,
    /// The input file could not be read; the payload describes why.
    FileReadError(String),
    /// The input text could not be parsed; the payload describes why.
    LPParseError(String),
}

impl LpErrors {
    /// A human-readable description of the error.
    pub fn message(&self) -> String {
        match self {
            LpErrors::VarNotBinary => "All variables must be Binary".to_string(),
            LpErrors::NoVars => "No variables found".to_string(),
            LpErrors::NoObjective => "Expected objective".to_string(),
            LpErrors::UnexpectedConstraintType => "Can only handle Standard constraints".to_string(),
            LpErrors::FileReadError(why) => why.clone(),
            LpErrors::LPParseError(why) => why.clone(),
        }
    }
}

} // verus!

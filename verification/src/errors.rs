//! The failures the library reports.  Every failure is fail-fast: parsing
//! or planning stops at the first one and no partial result is exposed.

use vstd::prelude::*;

verus! {

/// Abstract form of [`MakeError`], with names as byte sequences.
pub ghost enum MakeErrorModel {
    /// Malformed makefile syntax (stray text, a misplaced `:` or `=`).
    Syntax,
    /// End of input reached while a construct was still open.
    UnexpectedEnd,
    /// An `else` or `endif` without a matching `ifdef`/`ifndef`.
    MismatchedConditional,
    /// A `$` followed by a byte that introduces no known escape.
    UnknownEscape(u8),
    /// A required nested makefile that could not be opened.
    MissingFile(Seq<u8>),
    /// A special target used in a combination the tool does not implement.
    Unsupported(Seq<u8>),
    /// A prerequisite that is neither a rule target nor an existing file.
    NoRuleToBuild(Seq<u8>),
    /// An explicitly requested goal with no rule.
    NoRuleToMake(Seq<u8>),
    /// A default-goal build with no rules at all.
    NoTargets,
    /// The prerequisite walk exceeded the depth any acyclic rule graph
    /// allows, so the rules contain a dependency cycle.
    CircularDependency(Seq<u8>),
}

/// Why a parse or a build cannot go on.
#[derive(Debug, PartialEq, Eq)]
pub enum MakeError {
    Syntax,
    UnexpectedEnd,
    MismatchedConditional,
    UnknownEscape(u8),
    MissingFile(Vec<u8>),
    Unsupported(Vec<u8>),
    NoRuleToBuild(Vec<u8>),
    NoRuleToMake(Vec<u8>),
    NoTargets,
    CircularDependency(Vec<u8>),
}

impl View for MakeError {
    type V = MakeErrorModel;

    open spec fn view(&self) -> MakeErrorModel {
        match self {
            MakeError::Syntax => MakeErrorModel::Syntax,
            MakeError::UnexpectedEnd => MakeErrorModel::UnexpectedEnd,
            MakeError::MismatchedConditional => MakeErrorModel::MismatchedConditional,
            MakeError::UnknownEscape(b) => MakeErrorModel::UnknownEscape(*b),
            MakeError::MissingFile(n) => MakeErrorModel::MissingFile(n@),
            MakeError::Unsupported(n) => MakeErrorModel::Unsupported(n@),
            MakeError::NoRuleToBuild(n) => MakeErrorModel::NoRuleToBuild(n@),
            MakeError::NoRuleToMake(n) => MakeErrorModel::NoRuleToMake(n@),
            MakeError::NoTargets => MakeErrorModel::NoTargets,
            MakeError::CircularDependency(n) => MakeErrorModel::CircularDependency(n@),
        }
    }
}

} // verus!

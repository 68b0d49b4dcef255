//! Error values returned by value construction, document operations,
//! migration steps and catalogue registration.
use vstd::prelude::*;

verus! {

/// The kind of modeled value a raw input was meant to become.
#[derive(Debug, Clone, Copy, PartialEq, Eq, Structural)]
pub enum ValueKind {
    Capability,
    ResourceLimit,
    Integer { min: i64, max: i64 },
    Address,
    AddressList,
}

/// The rule that a raw input broke.
#[derive(Debug, Clone, Copy, PartialEq, Eq, Structural)]
pub enum Violation {
    /// The input was empty where a value was required.
    Empty,
    /// The input is not one of the kind's closed set of tokens.
    UnknownToken,
    /// The input does not read as a 64-bit decimal integer.
    NotAnInteger,
    /// The input reads as an integer outside the kind's inclusive bounds.
    OutOfRange,
    /// The input is not a dotted-quad IPv4 address.
    MalformedAddress,
    /// The input has a shape (scalar or list) that the kind does not take.
    UnsupportedShape,
}

/// A raw input that failed to become a modeled value: which kind it was
/// meant for, the input itself (or, in a list, the offending element) and
/// the rule it broke.
#[derive(Debug)]
pub struct ValidationError {
    pub kind: ValueKind,
    pub input: String,
    pub violation: Violation,
}

/// What a path held when an operation expected something else.
#[derive(Debug, Clone, Copy, PartialEq, Eq, Structural)]
pub enum PathState {
    Absent,
    Container,
    Leaf,
}

/// A document operation that would break the container/leaf rule, or that
/// had nothing to act on.
#[derive(Debug)]
pub enum TreeError {
    /// `path` was expected to be `expected` but is `actual`.
    UnexpectedState { path: Vec<String>, expected: PathState, actual: PathState },
    /// The empty path names the document itself and cannot be changed.
    RootPath,
    /// `path` was to be moved but is absent.
    Missing { path: Vec<String> },
    /// A subtree cannot be moved beneath itself.
    IntoOwnSubtree { from: Vec<String>, to: Vec<String> },
}

/// Why a document operation failed.
#[derive(Debug)]
pub enum DocumentError {
    Validation(ValidationError),
    Tree(TreeError),
}

/// Which transform of a step was applied.
#[derive(Debug, Clone, Copy, PartialEq, Eq, Structural)]
pub enum Direction {
    Forward,
    Backward,
}

/// A step that failed during a migration run, with the direction it was
/// applied in and the document error that stopped it.
#[derive(Debug)]
pub struct MigrationError {
    pub version: u32,
    pub direction: Direction,
    pub cause: DocumentError,
}

/// A catalogue registration that was refused.
#[derive(Debug, Clone, Copy, PartialEq, Eq, Structural)]
pub enum CatalogueError {
    DuplicateVersion { version: u32 },
}

} // verus!

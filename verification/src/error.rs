use vstd::prelude::*;

use crate::columnar::PhysicalType;
use crate::value::Value;

verus! {

/// Every failure the pipeline can surface. No error is recovered from: each
/// one aborts the run that raised it.
#[derive(Debug)]
pub enum Error {
    /// A resolved value's tag disagrees with the column's declared type.
    /// Carries the declared type and the offending value.
    BadType { expected: PhysicalType, found: Value },
    /// A column path segment does not exist in a record grouped under the
    /// bucket's shape: a broken grouping invariant.
    MissingPathSegment,
    /// A column path starts with a root that neither names the identifier,
    /// the payload, nor the raw bytes.
    UnexpectedRootPath,
    /// A list directly inside another list has no columnar encoding here.
    NestedListUnsupported,
    /// A declared physical type with no value coercion.
    UnsupportedPhysicalType,
    /// A selection line that does not decode to a content identifier.
    InvalidIdentifier,
}

impl Error {
    /// A short description of the error.
    pub fn message(&self) -> (m: &str)
        ensures
            m@ == error_message_of(*self),
    {
        match self {
            Error::BadType { expected: _, found: _ } => "bad type for declared column",
            Error::MissingPathSegment => "data path should resolve",
            Error::UnexpectedRootPath => "unexpected root path",
            Error::NestedListUnsupported => "nested lists are not implemented",
            Error::UnsupportedPhysicalType => "physical type is not implemented",
            Error::InvalidIdentifier => "line is not a content identifier",
        }
    }
}

pub open spec fn error_message_of(e: Error) -> Seq<char> {
    match e {
        Error::BadType { expected: _, found: _ } => "bad type for declared column"@,
        Error::MissingPathSegment => "data path should resolve"@,
        Error::UnexpectedRootPath => "unexpected root path"@,
        Error::NestedListUnsupported => "nested lists are not implemented"@,
        Error::UnsupportedPhysicalType => "physical type is not implemented"@,
        Error::InvalidIdentifier => "line is not a content identifier"@,
    }
}

} // verus!

//! Errors of the triangle-mesh loader.
//!
//! The loader itself reads files and builds geometry, and lives with the
//! unverified front end; these are the failure values it hands back.

use vstd::prelude::*;

verus! {

/// A failure while building a mesh primitive: an unsupported file type,
/// or a failure while reading and parsing the mesh file.
#[derive(PartialEq, Eq, Debug)]
pub enum Error {
    FileTypeError(String),
    FileReadError(String),
}

impl Error {
    /// Wrap the description of a failure to read or parse a mesh file.
    pub fn read_error(message: String) -> (r: Self)
        ensures
            r == Error::FileReadError(message),
    {
        Self::FileReadError(message)
    }

    /// Wrap the description of an unsupported mesh file type.
    pub fn type_error(msg: String) -> (r: Self)
        ensures
            r == Error::FileTypeError(msg),
    {
        Self::FileTypeError(msg)
    }

    /// The human-readable description of the failure.
    pub fn message(&self) -> (r: String)
        ensures
            self matches Error::FileReadError(m) ==> r@ == m@,
            self matches Error::FileTypeError(m) ==> r@ == m@,
    {
        match self {
            Error::FileReadError(m) => m.clone(),
            Error::FileTypeError(m) => m.clone(),
        }
    }
}

} // verus!

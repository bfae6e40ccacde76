//! The library's errors.

use vstd::prelude::*;

verus! {

/// `std::io::Error`, carried through unchanged.
#[verifier::external_type_specification]
#[verifier::external_body]
pub struct ExIoError(std::io::Error);

/// What can go wrong while analyzing a program.
#[derive(Debug)]
pub enum Error {
    /// No tsconfig.json at the given path.
    NoTsConfig(String),
    /// A path or specifier could not be resolved.
    Resolve(String),
    /// A file could not be read.
    Io { path: String, source: std::io::Error },
    /// No tsgo binary was found.
    TsgoNotFound,
    /// The tsgo session failed or answered something unexpected.
    Tsgo(String),
}

impl Error {
    /// A read failure of `path`.
    pub fn io(path: String, source: std::io::Error) -> (r: Error)
        ensures
            r == (Error::Io { path, source }),
    {
        Error::Io { path, source }
    }
}

} // verus!

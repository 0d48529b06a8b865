use vstd::prelude::*;

verus! {

/// The failure taxonomy of the profile manager.
///
/// `NotFound` and `Conflict` report a missing or an already-taken profile
/// key, `ValidationError` a malformed email or duplicate key on create,
/// `ParseError` a malformed backing document, `IOError` a filesystem
/// failure, and `ExternalToolError` a failure to run or decode the
/// external configuration tool.
#[derive(Debug, Clone, Copy, PartialEq, Eq, Structural)]
pub enum Error {
    NotFound,
    Conflict,
    ValidationError,
    ParseError,
    IOError,
    ExternalToolError,
}

impl Error {
    /// A short human-readable description, for callers that report failures.
    pub fn describe(&self) -> (r: &'static str)
        ensures
            r@ == self.spec_describe(),
    {
        match self {
            Error::NotFound => "profile not found",
            Error::Conflict => "profile already exists",
            Error::ValidationError => "invalid input",
            Error::ParseError => "malformed profile file",
            Error::IOError => "filesystem failure",
            Error::ExternalToolError => "external tool failure",
        }
    }

    pub open spec fn spec_describe(self) -> Seq<char> {
        match self {
            Error::NotFound => "profile not found"@,
            Error::Conflict => "profile already exists"@,
            Error::ValidationError => "invalid input"@,
            Error::ParseError => "malformed profile file"@,
            Error::IOError => "filesystem failure"@,
            Error::ExternalToolError => "external tool failure"@,
        }
    }
}

} // verus!

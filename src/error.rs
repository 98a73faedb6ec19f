use vstd::prelude::*;
use vstd::string::StringExecFns;

verus! {

/// The failures that the analysis reports to its caller.
///
/// A record that is missing a field or holds a field of the wrong type is
/// not an error: it is skipped and not counted.
#[derive(Debug)]
pub enum Error {
    /// The input cannot be read as a container of records.
    ParseError(String),
    /// The aggregated data cannot be turned into a report.
    TransformationError(String),
    /// The input could not be opened, read or positioned.
    IOError(String),
    /// Any other failure.
    UnknownError(String),
    /// The run was asked for with an invalid configuration, such as no worker.
    ConfigurationError(String),
}

/// The label that the human-readable form of each kind of error starts with.
pub open spec fn error_prefix(e: Error) -> Seq<char> {
    match e {
        Error::ParseError(_) => "Parse Error: "@,
        Error::TransformationError(_) => "Transformation Error: "@,
        Error::IOError(_) => "IO Error: "@,
        Error::UnknownError(_) => "Unknown Error: "@,
        Error::ConfigurationError(_) => "Configuration Error: "@,
    }
}

/// The detail text that an error carries.
pub open spec fn error_detail(e: Error) -> Seq<char> {
    match e {
        Error::ParseError(m) => m@,
        Error::TransformationError(m) => m@,
        Error::IOError(m) => m@,
        Error::UnknownError(m) => m@,
        Error::ConfigurationError(m) => m@,
    }
}

impl Error {
    /// The human-readable form of the error: its kind's label, then its detail.
    pub fn to_message(&self) -> (r: String)
        ensures
            r@ == error_prefix(*self) + error_detail(*self),
    {
        let (prefix, detail) = match self {
            Error::ParseError(m) => ("Parse Error: ", m),
            Error::TransformationError(m) => ("Transformation Error: ", m),
            Error::IOError(m) => ("IO Error: ", m),
            Error::UnknownError(m) => ("Unknown Error: ", m),
            Error::ConfigurationError(m) => ("Configuration Error: ", m),
        };
        let mut r = String::from_str(prefix);
        r.append(detail.as_str());
        r
    }
}

} // verus!

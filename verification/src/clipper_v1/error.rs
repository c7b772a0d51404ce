//! Errors of the clipper.
use vstd::prelude::*;

verus! {

broadcast use vstd::string::group_string_axioms;

/// All errors that clipper operations report.
#[derive(Debug)]
pub enum ClipperError {
    /// Open paths given where only closed paths are allowed.
    OpenPathsNotSupported,
    /// Invalid polygon data.
    InvalidPolygon(String),
    /// An operation could not be completed.
    OperationFailure(String),
    /// Invalid parameters.
    InvalidParameter(String),
    /// A coordinate outside the allowed range.
    CoordinateOutOfRange,
    /// An execution was requested while another one is running.
    ExecutionInProgress,
    /// Anything else.
    Other(String),
}

/// An `InvalidPolygon` error carrying `msg`.
pub fn invalid_polygon<T>(msg: &str) -> (r: Result<T, ClipperError>)
    ensures
        r matches Err(ClipperError::InvalidPolygon(m)) && m@ == msg@,
{
    Err(ClipperError::InvalidPolygon(msg.to_string()))
}

/// An `OperationFailure` error carrying `msg`.
pub fn operation_failed<T>(msg: &str) -> (r: Result<T, ClipperError>)
    ensures
        r matches Err(ClipperError::OperationFailure(m)) && m@ == msg@,
{
    Err(ClipperError::OperationFailure(msg.to_string()))
}

/// An `InvalidParameter` error carrying `msg`.
pub fn invalid_parameter<T>(msg: &str) -> (r: Result<T, ClipperError>)
    ensures
        r matches Err(ClipperError::InvalidParameter(m)) && m@ == msg@,
{
    Err(ClipperError::InvalidParameter(msg.to_string()))
}


/// The text an error is shown as.
pub open spec fn error_message(e: ClipperError) -> Seq<char> {
    match e {
        ClipperError::OpenPathsNotSupported => "Open paths are not supported for this operation"@,
        ClipperError::InvalidPolygon(m) => "Invalid polygon: "@ + m@,
        ClipperError::OperationFailure(m) => "Operation failed: "@ + m@,
        ClipperError::InvalidParameter(m) => "Invalid parameter: "@ + m@,
        ClipperError::CoordinateOutOfRange => "Coordinate value outside allowed range"@,
        ClipperError::ExecutionInProgress => "Cannot execute while another operation is in progress"@,
        ClipperError::Other(m) => m@,
    }
}

impl ClipperError {
    /// The text the error is shown as (see `error_message`).
    pub fn to_string(&self) -> (r: String)
        ensures
            r@ == error_message(*self),
    {
        match self {
            ClipperError::OpenPathsNotSupported => "Open paths are not supported for this operation".to_string(),
            ClipperError::InvalidPolygon(m) => "Invalid polygon: ".to_string().concat(m.as_str()),
            ClipperError::OperationFailure(m) => "Operation failed: ".to_string().concat(m.as_str()),
            ClipperError::InvalidParameter(m) => "Invalid parameter: ".to_string().concat(m.as_str()),
            ClipperError::CoordinateOutOfRange => "Coordinate value outside allowed range".to_string(),
            ClipperError::ExecutionInProgress => "Cannot execute while another operation is in progress".to_string(),
            ClipperError::Other(m) => m.clone(),
        }
    }
}

} // verus!

use vstd::prelude::*;

verus! {

/// One error kind for every way a calculation can fail.
///
/// Script-originated failures are caught at the script-runtime boundary and
/// converted into one of these kinds; a failing script never aborts the host.
#[derive(Debug, Clone, PartialEq, Eq)]
pub enum CalcError {
    /// A value had the wrong shape: a bad decimal construction, or a script
    /// return value whose fields are missing or of the wrong type.
    TypeMismatch(String),
    /// Division or modulo by a zero decimal.
    DivisionByZero,
    /// The calculator script failed to compile.
    ScriptCompileError(String),
    /// The calculator script raised an error while running.
    ScriptRuntimeError(String),
    /// The named calculator function is not defined by the script.
    FunctionNotFound(String),
    /// The script ran past its instruction budget.
    Timeout,
    /// A referenced entity or calculator does not exist.
    NotFound(String),
    /// A failure inside the host itself.
    Internal(String),
}

/// Error of one exact-decimal operation.
#[derive(Debug, Clone, Copy, PartialEq, Eq, Structural)]
pub enum DecimalError {
    /// Division or modulo by zero.
    DivisionByZero,
    /// The exact result does not fit the representable precision range.
    Overflow,
    /// Exponentiation with an exponent that is not an integer.
    FractionalExponent,
}

/// An error carrying only an HTTP-like status code, kept for callers that
/// report failures without inspecting them.
#[derive(Debug, Clone, Copy, PartialEq, Eq, Structural)]
pub struct GenericError(pub u16);

impl GenericError {
    pub fn bad_request() -> (r: GenericError)
        ensures
            r.0 == 400,
    {
        GenericError(400)
    }

    pub fn forbidden() -> (r: GenericError)
        ensures
            r.0 == 403,
    {
        GenericError(403)
    }

    pub fn not_found() -> (r: GenericError)
        ensures
            r.0 == 404,
    {
        GenericError(404)
    }

    pub fn conflict() -> (r: GenericError)
        ensures
            r.0 == 409,
    {
        GenericError(409)
    }

    pub fn internal_server_error() -> (r: GenericError)
        ensures
            r.0 == 500,
    {
        GenericError(500)
    }
}

} // verus!

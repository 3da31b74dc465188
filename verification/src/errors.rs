//! Error types: registration-time failures (`ServerError`) and per-request
//! handler failures (`Error`), together with their views for contracts.

use vstd::prelude::*;

verus! {

/// An error raised while configuring the server, most prominently a route
/// declaration that fails to parse. Carries a human-readable message.
#[derive(Debug)]
pub struct ServerError(pub String);

impl View for ServerError {
    type V = Seq<char>;

    open spec fn view(&self) -> Seq<char> {
        self.0@
    }
}

/// A failure signalled by a handler. `StatusCode` carries an explicit HTTP
/// status (100..=599 in ordinary use) with a message body; any unexpected
/// error becomes `InternalServerError` and surfaces as HTTP 500.
#[derive(Debug)]
pub enum Error {
    StatusCode(u16, String),
    InternalServerError(String),
}

impl Error {
    /// Wrap a message as an internal server error.
    pub fn new(message: String) -> (r: Self)
        ensures
            r matches Error::InternalServerError(m) && m@ == message@,
    {
        Error::InternalServerError(message)
    }

    /// Signal a specific HTTP status with an informational body.
    pub fn new_status(error: u16, message: String) -> (r: Self)
        ensures
            r matches Error::StatusCode(c, m) && c == error && m@ == message@,
    {
        Error::StatusCode(error, message)
    }
}

impl Default for Error {
    fn default() -> (r: Self)
        ensures
            r matches Error::InternalServerError(m) && m@ == "internal server error"@,
    {
        Error::InternalServerError("internal server error".to_owned())
    }
}

/// Implemented by application error types that know which HTTP status they
/// should surface as.
pub trait ToStatus {
    fn to_status(&self) -> Error;
}

} // verus!

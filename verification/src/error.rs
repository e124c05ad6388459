use vstd::prelude::*;

verus! {

/// Error taxonomy shared by the gateway and the broker.
///
/// `Unauthorized` covers bad or missing credentials, `BadRequest` a malformed
/// payload or command, and `InternalError` a downstream store, transport or
/// timing failure.
#[derive(Debug, Clone, Copy, PartialEq, Eq, Structural)]
pub enum FlockError {
    InternalError,
    BadRequest,
    Unauthorized,
}

impl FlockError {
    /// The HTTP status code a response carrying this error uses.
    pub fn status_code(&self) -> (code: u16)
        ensures
            code == match *self {
                FlockError::InternalError => 500u16,
                FlockError::BadRequest => 400u16,
                FlockError::Unauthorized => 401u16,
            },
    {
        match *self {
            FlockError::InternalError => 500,
            FlockError::BadRequest => 400,
            FlockError::Unauthorized => 401,
        }
    }

    /// A short human-readable description, in place of `Display`.
    pub fn message(&self) -> (m: &'static str)
        ensures
            *self == FlockError::InternalError ==> m@ == "Internal Server Error"@,
            *self == FlockError::BadRequest ==> m@ == "Bad Request"@,
            *self == FlockError::Unauthorized ==> m@ == "Unauthorized"@,
    {
        match *self {
            FlockError::InternalError => "Internal Server Error",
            FlockError::BadRequest => "Bad Request",
            FlockError::Unauthorized => "Unauthorized",
        }
    }
}

} // verus!

//! The error taxonomy every gate of the pipeline answers with.

use vstd::prelude::*;

verus! {

/// One terminal answer per failed gate. The payload is the message shown to
/// the client, except for `InternalError`, whose detail stays server-side.
#[derive(Debug)]
pub enum AppError {
    NotFound(String),
    Unauthorized(String),
    Forbidden(String),
    BadRequest(String),
    Conflict(String),
    InternalError(String),
    ValidationError(String),
}

impl AppError {
    /// The HTTP status the variant maps to.
    pub open spec fn spec_status_code(&self) -> u16 {
        match self {
            AppError::NotFound(_) => 404,
            AppError::Unauthorized(_) => 401,
            AppError::Forbidden(_) => 403,
            AppError::BadRequest(_) => 400,
            AppError::ValidationError(_) => 400,
            AppError::Conflict(_) => 409,
            AppError::InternalError(_) => 500,
        }
    }

    #[verifier::when_used_as_spec(spec_status_code)]
    pub fn status_code(&self) -> (r: u16)
        ensures
            r == self.spec_status_code(),
    {
        match self {
            AppError::NotFound(_) => 404,
            AppError::Unauthorized(_) => 401,
            AppError::Forbidden(_) => 403,
            AppError::BadRequest(_) => 400,
            AppError::ValidationError(_) => 400,
            AppError::Conflict(_) => 409,
            AppError::InternalError(_) => 500,
        }
    }

    /// The label of the error body, one per status.
    pub fn error_label(&self) -> (r: String)
        ensures
            self.spec_status_code() == 404 ==> r@ == "Not Found"@,
            self.spec_status_code() == 401 ==> r@ == "Unauthorized"@,
            self.spec_status_code() == 403 ==> r@ == "Forbidden"@,
            self.spec_status_code() == 400 ==> r@ == "Bad Request"@,
            self.spec_status_code() == 409 ==> r@ == "Conflict"@,
            self.spec_status_code() == 500 ==> r@ == "Internal Server Error"@,
    {
        match self {
            AppError::NotFound(_) => String::from_str("Not Found"),
            AppError::Unauthorized(_) => String::from_str("Unauthorized"),
            AppError::Forbidden(_) => String::from_str("Forbidden"),
            AppError::BadRequest(_) => String::from_str("Bad Request"),
            AppError::ValidationError(_) => String::from_str("Bad Request"),
            AppError::Conflict(_) => String::from_str("Conflict"),
            AppError::InternalError(_) => String::from_str("Internal Server Error"),
        }
    }

    /// The message shown to the client: internal detail is withheld.
    pub fn client_message(&self) -> (r: String)
        ensures
            self.spec_status_code() != 500 ==> r@ == self.spec_message(),
    {
        match self {
            AppError::NotFound(m) => m.clone(),
            AppError::Unauthorized(m) => m.clone(),
            AppError::Forbidden(m) => m.clone(),
            AppError::BadRequest(m) => m.clone(),
            AppError::ValidationError(m) => m.clone(),
            AppError::Conflict(m) => m.clone(),
            AppError::InternalError(_) => String::from_str("An unexpected error occurred"),
        }
    }

    /// The message the variant carries.
    pub open spec fn spec_message(&self) -> Seq<char> {
        match self {
            AppError::NotFound(m) => m@,
            AppError::Unauthorized(m) => m@,
            AppError::Forbidden(m) => m@,
            AppError::BadRequest(m) => m@,
            AppError::ValidationError(m) => m@,
            AppError::Conflict(m) => m@,
            AppError::InternalError(m) => m@,
        }
    }
}

/// Every fallible operation of the library answers with this.
pub type AppResult<T> = Result<T, AppError>;

} // verus!

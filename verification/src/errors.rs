//! The errors of the bank services, and the HTTP answers they become.
use vstd::prelude::*;
use crate::text::owned;

verus! {

/// An error of another library, carried as it is.
#[verifier::external_type_specification]
#[verifier::external_body]
pub struct ExAnyhowError(anyhow::Error);

/// Why a request to a bank service failed.
pub enum ServiceError {
    BadRequest(String),
    NotFound,
    Unauthorized,
    Internal(anyhow::Error),
}

impl From<anyhow::Error> for ServiceError {
    fn from(e: anyhow::Error) -> (r: ServiceError) {
        ServiceError::Internal(e)
    }
}

impl vstd::std_specs::convert::FromSpecImpl<anyhow::Error> for ServiceError {
    open spec fn obeys_from_spec() -> bool {
        true
    }

    open spec fn from_spec(v: anyhow::Error) -> ServiceError {
        ServiceError::Internal(v)
    }
}

/// The HTTP answer to a failed request: the status code, a short error
/// code and, for a bad request, what was wrong with it.
pub struct ErrorReply {
    pub status: u16,
    pub error: String,
    pub detail: Option<String>,
}

impl ServiceError {
    /// The HTTP answer: 400 `bad_request` with the detail, 404 `not_found`,
    /// 401 `unauthorized`, or 500 `internal` without the inner error.
    pub fn reply(&self) -> (r: ErrorReply)
        ensures
            match self {
                ServiceError::BadRequest(d) => r.status == 400 && r.error@ == "bad_request"@ && r.detail
                    == Some(*d),
                ServiceError::NotFound => r.status == 404 && r.error@ == "not_found"@ && r.detail is None,
                ServiceError::Unauthorized => r.status == 401 && r.error@ == "unauthorized"@ && r.detail is None,
                ServiceError::Internal(_) => r.status == 500 && r.error@ == "internal"@ && r.detail is None,
            },
    {
        match self {
            ServiceError::BadRequest(d) => ErrorReply { status: 400, error: owned("bad_request"), detail: Some(d.clone()) },
            ServiceError::NotFound => ErrorReply { status: 404, error: owned("not_found"), detail: None },
            ServiceError::Unauthorized => ErrorReply { status: 401, error: owned("unauthorized"), detail: None },
            ServiceError::Internal(_) => ErrorReply { status: 500, error: owned("internal"), detail: None },
        }
    }
}

} // verus!

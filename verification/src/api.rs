//! Classification of HTTP fetch outcomes.
//!
//! The network call itself happens outside the library; it reports what
//! happened as a [`FetchEvent`], and [`classify_response`] turns that event
//! into either the raw response body or a classified [`ApiError`].

use vstd::prelude::*;

verus! {

/// The kind of a classified API failure.
#[derive(Clone, Copy, Debug, PartialEq, Eq, Structural)]
pub enum ApiErrorType {
    /// A network- or HTTP-level failure.
    TransportFailure,
    /// A malformed or unexpectedly shaped JSON response.
    DecodeFailure,
}

impl ApiErrorType {
    /// The name of this error kind, as shown to the user.
    pub open spec fn spec_name(self) -> Seq<char> {
        match self {
            ApiErrorType::TransportFailure => "TransportFailure"@,
            ApiErrorType::DecodeFailure => "DecodeFailure"@,
        }
    }

    /// Returns the name of this error kind.
    pub fn name(&self) -> (r: &'static str)
        ensures
            r@ == self.spec_name(),
    {
        match self {
            ApiErrorType::TransportFailure => "TransportFailure",
            ApiErrorType::DecodeFailure => "DecodeFailure",
        }
    }
}

/// A classified error from the fetch or decode layer, carrying a
/// human-readable message.
#[derive(Debug)]
pub struct ApiError {
    pub code: ApiErrorType,
    pub message: String,
}

impl ApiError {
    /// Renders the error as the single line shown to the user.
    pub fn render(&self) -> (r: String)
        ensures
            r@ == "ApiError( code: "@ + self.code.spec_name() + ", message: "@ + self.message@
                + ")"@,
    {
        let mut s = String::from_str("ApiError( code: ");
        s.append(self.code.name());
        s.append(", message: ");
        s.append(self.message.as_str());
        s.append(")");
        s
    }
}

/// The outcome of one attempted HTTP GET, as observed by the caller that
/// performed it: either the connection could not be made at all, or a
/// response arrived with a status code and (if it could be read) a body.
pub enum FetchEvent {
    /// The request could not be performed (DNS, connection, timeout).
    ConnectFailed,
    /// A response arrived. `body` is `None` when the body text could not
    /// be read.
    Response { status: u16, body: Option<String> },
}

/// What classification is owed for each fetch event: the body text on a
/// 2xx response with a readable body, and otherwise a transport failure
/// whose message depends on the status code.
pub open spec fn spec_classify(ev: FetchEvent) -> Result<Seq<char>, (ApiErrorType, Seq<char>)> {
    match ev {
        FetchEvent::ConnectFailed => Err(
            (ApiErrorType::TransportFailure, "Failed to perform HTTP request"@),
        ),
        FetchEvent::Response { status, body } => {
            if status == 422 {
                Err((ApiErrorType::TransportFailure, "Invalid base or target currency"@))
            } else if 200 <= status && status <= 299 {
                match body {
                    Some(t) => Ok(t@),
                    None => Err((ApiErrorType::TransportFailure, "Failed to read response text"@)),
                }
            } else {
                match body {
                    Some(t) => Err((ApiErrorType::TransportFailure, t@)),
                    None => Err((ApiErrorType::TransportFailure, "Failed to read response text"@)),
                }
            }
        },
    }
}

/// Classifies the outcome of one HTTP GET: a connection failure or an
/// unreadable body is a transport failure, status 422 is reported as an
/// invalid currency pair, any other non-2xx status carries the body text
/// as its message, and a readable 2xx body is returned as-is.
pub fn classify_response(ev: FetchEvent) -> (r: Result<String, ApiError>)
    ensures
        spec_classify(ev) matches Ok(t) ==> r matches Ok(b) && b@ == t,
        spec_classify(ev) matches Err(p) ==> r matches Err(e) && e.code == p.0 && e.message@
            == p.1,
{
    match ev {
        FetchEvent::ConnectFailed => Err(
            ApiError {
                code: ApiErrorType::TransportFailure,
                message: String::from_str("Failed to perform HTTP request"),
            },
        ),
        FetchEvent::Response { status, body } => {
            if status == 422 {
                Err(
                    ApiError {
                        code: ApiErrorType::TransportFailure,
                        message: String::from_str("Invalid base or target currency"),
                    },
                )
            } else {
                match body {
                    Some(t) => {
                        if 200 <= status && status <= 299 {
                            Ok(t)
                        } else {
                            Err(ApiError { code: ApiErrorType::TransportFailure, message: t })
                        }
                    },
                    None => Err(
                        ApiError {
                            code: ApiErrorType::TransportFailure,
                            message: String::from_str("Failed to read response text"),
                        },
                    ),
                }
            }
        },
    }
}

} // verus!

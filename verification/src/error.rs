use vstd::prelude::*;

verus! {

#[verifier::external_type_specification]
#[verifier::external_body]
pub struct ExJsonValue(serde_json::Value);

/// The relay's error kinds; the text carried by some of them is shown to
/// clients as the error message.
#[derive(Debug, Clone)]
pub enum EnigmaRelayError {
    InvalidInput(String),
    RateLimited,
    Duplicate,
    QuotaExceeded,
    NotFound,
    StorageError(String),
    Config(String),
    Tls(String),
    Disabled(String),
    Internal(String),
}

pub type Result<T> = core::result::Result<T, EnigmaRelayError>;

/// The JSON body of an error reply: a stable machine-readable code and a
/// human-readable message.
#[derive(Debug)]
pub struct ErrorBody {
    pub code: &'static str,
    pub message: String,
    pub details: Option<serde_json::Value>,
}

#[derive(Debug)]
pub struct ErrorResponse {
    pub error: ErrorBody,
}

/// The code under which each kind of error is reported.
pub open spec fn error_code(e: EnigmaRelayError) -> Seq<char> {
    match e {
        EnigmaRelayError::InvalidInput(_) => "invalid_input"@,
        EnigmaRelayError::RateLimited => "rate_limited"@,
        EnigmaRelayError::Duplicate => "duplicate"@,
        EnigmaRelayError::QuotaExceeded => "quota_exceeded"@,
        EnigmaRelayError::NotFound => "not_found"@,
        EnigmaRelayError::StorageError(_) => "storage_error"@,
        EnigmaRelayError::Config(_) => "config_error"@,
        EnigmaRelayError::Tls(_) => "tls_error"@,
        EnigmaRelayError::Disabled(_) => "feature_disabled"@,
        EnigmaRelayError::Internal(_) => "internal_error"@,
    }
}

/// The message reported for each kind of error: the carried text where there
/// is one, a fixed sentence otherwise.
pub open spec fn error_message(e: EnigmaRelayError) -> Seq<char> {
    match e {
        EnigmaRelayError::InvalidInput(m) => m@,
        EnigmaRelayError::RateLimited => "rate limit exceeded"@,
        EnigmaRelayError::Duplicate => "duplicate message"@,
        EnigmaRelayError::QuotaExceeded => "recipient quota exceeded"@,
        EnigmaRelayError::NotFound => "not found"@,
        EnigmaRelayError::StorageError(m) => m@,
        EnigmaRelayError::Config(m) => m@,
        EnigmaRelayError::Tls(m) => m@,
        EnigmaRelayError::Disabled(m) => m@,
        EnigmaRelayError::Internal(m) => m@,
    }
}

/// The HTTP status with which each kind of error is answered.
pub open spec fn error_status(e: EnigmaRelayError) -> u16 {
    match e {
        EnigmaRelayError::InvalidInput(_) => 400,
        EnigmaRelayError::RateLimited => 429,
        EnigmaRelayError::Duplicate => 200,
        EnigmaRelayError::QuotaExceeded => 409,
        EnigmaRelayError::NotFound => 404,
        EnigmaRelayError::StorageError(_) => 503,
        EnigmaRelayError::Config(_) => 400,
        EnigmaRelayError::Tls(_) => 500,
        EnigmaRelayError::Disabled(_) => 503,
        EnigmaRelayError::Internal(_) => 500,
    }
}

fn owned(s: &str) -> (r: String)
    ensures
        r@ == s@,
{
    s.to_owned()
}

impl EnigmaRelayError {
    /// The structured body that reports this error.
    pub fn into_response(self) -> (r: ErrorResponse)
        ensures
            r.error.code@ == error_code(self),
            r.error.message@ == error_message(self),
            r.error.details is None,
    {
        let (code, message): (&'static str, String) = match self {
            EnigmaRelayError::InvalidInput(msg) => ("invalid_input", msg),
            EnigmaRelayError::RateLimited => ("rate_limited", owned("rate limit exceeded")),
            EnigmaRelayError::Duplicate => ("duplicate", owned("duplicate message")),
            EnigmaRelayError::QuotaExceeded => ("quota_exceeded", owned("recipient quota exceeded")),
            EnigmaRelayError::NotFound => ("not_found", owned("not found")),
            EnigmaRelayError::StorageError(msg) => ("storage_error", msg),
            EnigmaRelayError::Config(msg) => ("config_error", msg),
            EnigmaRelayError::Tls(msg) => ("tls_error", msg),
            EnigmaRelayError::Disabled(msg) => ("feature_disabled", msg),
            EnigmaRelayError::Internal(msg) => ("internal_error", msg),
        };
        ErrorResponse { error: ErrorBody { code, message, details: None } }
    }

    /// The HTTP status code with which this error is answered.
    pub fn status_code(&self) -> (r: u16)
        ensures
            r == error_status(*self),
    {
        match self {
            EnigmaRelayError::InvalidInput(_) => 400,
            EnigmaRelayError::RateLimited => 429,
            EnigmaRelayError::Duplicate => 200,
            EnigmaRelayError::QuotaExceeded => 409,
            EnigmaRelayError::NotFound => 404,
            EnigmaRelayError::StorageError(_) => 503,
            EnigmaRelayError::Config(_) => 400,
            EnigmaRelayError::Tls(_) => 500,
            EnigmaRelayError::Disabled(_) => 503,
            EnigmaRelayError::Internal(_) => 500,
        }
    }
}

} // verus!

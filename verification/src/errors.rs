//! The error taxonomies of the gateway and the indexer. No error here is
//! process-fatal: each maps to a response or is confined to one session.

use vstd::prelude::*;
use vstd::string::StringExecFns;

verus! {

/// A request-level failure of the gateway, mapped to a status code.
pub enum ApiError {
    Unauthorized,
    Forbidden,
    NotFound,
    BadRequest(String),
    Internal,
}

impl ApiError {
    /// The message reported to the client.
    pub open spec fn spec_message(&self) -> Seq<char> {
        match self {
            ApiError::Unauthorized => "unauthorized"@,
            ApiError::Forbidden => "forbidden"@,
            ApiError::NotFound => "not found"@,
            ApiError::BadRequest(m) => "bad request: "@ + m@,
            ApiError::Internal => "internal error"@,
        }
    }

    /// The HTTP status code this error is reported with.
    pub fn status_code(&self) -> (r: u16)
        ensures
            r == (match self {
                ApiError::Unauthorized => 401u16,
                ApiError::Forbidden => 403u16,
                ApiError::NotFound => 404u16,
                ApiError::BadRequest(_) => 400u16,
                ApiError::Internal => 500u16,
            }),
    {
        match self {
            ApiError::Unauthorized => 401,
            ApiError::Forbidden => 403,
            ApiError::NotFound => 404,
            ApiError::BadRequest(_) => 400,
            ApiError::Internal => 500,
        }
    }

    /// The message reported to the client.
    pub fn message(&self) -> (r: String)
        ensures
            r@ == self.spec_message(),
    {
        match self {
            ApiError::Unauthorized => "unauthorized".to_owned(),
            ApiError::Forbidden => "forbidden".to_owned(),
            ApiError::NotFound => "not found".to_owned(),
            ApiError::BadRequest(m) => "bad request: ".to_owned().concat(m.as_str()),
            ApiError::Internal => "internal error".to_owned(),
        }
    }
}

/// A failure of the indexer, named by the stage it came from.
pub enum IndexerError {
    Rpc(String),
    Storage(String),
    Parse(String),
}

impl IndexerError {
    /// The message reported in the logs.
    pub open spec fn spec_message(&self) -> Seq<char> {
        match self {
            IndexerError::Rpc(m) => "rpc error: "@ + m@,
            IndexerError::Storage(m) => "storage error: "@ + m@,
            IndexerError::Parse(m) => "parse error: "@ + m@,
        }
    }

    /// The message reported in the logs.
    pub fn message(&self) -> (r: String)
        ensures
            r@ == self.spec_message(),
    {
        match self {
            IndexerError::Rpc(m) => "rpc error: ".to_owned().concat(m.as_str()),
            IndexerError::Storage(m) => "storage error: ".to_owned().concat(m.as_str()),
            IndexerError::Parse(m) => "parse error: ".to_owned().concat(m.as_str()),
        }
    }
}

} // verus!

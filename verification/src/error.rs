//! Error taxonomy of the catalog.
//!
//! The first five variants are user-visible rejections; `Storage` covers the
//! faults of the underlying key-value store.

use vstd::prelude::*;

verus! {

#[derive(Clone, Copy, Debug, PartialEq, Eq, Structural)]
pub enum ApiError {
    Unauthorized,
    NotFound,
    BadRequest,
    EmailTaken,
    FileExists,
    Storage,
}

impl ApiError {
    /// Message used by callers that print errors.
    pub fn describe(&self) -> (r: &'static str)
        ensures
            r@.len() > 0,
    {
        let r = match self {
            ApiError::Unauthorized => "unauthorized",
            ApiError::NotFound => "not found",
            ApiError::BadRequest => "bad request",
            ApiError::EmailTaken => "email taken",
            ApiError::FileExists => "file exists",
            ApiError::Storage => "storage fault",
        };
        proof {
            reveal_strlit("unauthorized");
            reveal_strlit("not found");
            reveal_strlit("bad request");
            reveal_strlit("email taken");
            reveal_strlit("file exists");
            reveal_strlit("storage fault");
        }
        r
    }
}

pub type ApiResult<T> = Result<T, ApiError>;

} // verus!

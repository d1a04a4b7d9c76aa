//! The commands that a client sends and the responses that the server
//! returns for them.
use vstd::prelude::*;
use crate::error::KvsError;

verus! {

/// A request: store a value, read one, or remove a key.
#[derive(Debug)]
pub enum CMD {
    Put { key: String, value: String },
    Get { key: String },
    Rm { key: String },
}

/// The answer to a `Put`.
#[derive(Debug)]
pub enum SetResponse {
    Done,
    Failed(String),
}

/// The answer to a `Get`: the value, or why there is none.
#[derive(Debug)]
pub enum GetResponse {
    Value(String),
    Failed(String),
}

/// The answer to a `Rm`.
#[derive(Debug)]
pub enum RemoveResponse {
    Done,
    Failed(String),
}

impl GetResponse {
    /// What a client prints: the value, or the error's message.
    pub fn text(&self) -> (r: String)
        ensures
            r@ == match self {
                GetResponse::Value(v) => v@,
                GetResponse::Failed(e) => e@,
            },
    {
        match self {
            GetResponse::Value(v) => v.clone(),
            GetResponse::Failed(e) => e.clone(),
        }
    }
}

/// The response to a `Put` whose outcome was `r`.
pub fn set_response(r: Result<(), KvsError>) -> (out: SetResponse)
    ensures
        match r {
            Ok(()) => out is Done,
            Err(e) => out is Failed && out->Failed_0@ == e.spec_message(),
        },
{
    match r {
        Ok(()) => SetResponse::Done,
        Err(e) => SetResponse::Failed(e.message()),
    }
}

/// The response to a `Get` whose outcome was `r`; a missing key is reported
/// as `KeyNotFound`.
pub fn get_response(r: Result<Option<String>, KvsError>) -> (out: GetResponse)
    ensures
        match r {
            Ok(Some(v)) => out is Value && out->Value_0@ == v@,
            Ok(None) => out is Failed && out->Failed_0@ == KvsError::KeyNotFound.spec_message(),
            Err(e) => out is Failed && out->Failed_0@ == e.spec_message(),
        },
{
    match r {
        Ok(Some(v)) => GetResponse::Value(v),
        Ok(None) => GetResponse::Failed(KvsError::KeyNotFound.message()),
        Err(e) => GetResponse::Failed(e.message()),
    }
}

/// The response to a `Rm` whose outcome was `r`.
pub fn remove_response(r: Result<(), KvsError>) -> (out: RemoveResponse)
    ensures
        match r {
            Ok(()) => out is Done,
            Err(e) => out is Failed && out->Failed_0@ == e.spec_message(),
        },
{
    match r {
        Ok(()) => RemoveResponse::Done,
        Err(e) => RemoveResponse::Failed(e.message()),
    }
}

} // verus!

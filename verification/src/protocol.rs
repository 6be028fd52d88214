//! The records that travel between client and server, and what each side
//! makes of them.

use vstd::prelude::*;
use crate::engines::KvsEngine;
use crate::error::KvsError;

verus! {

/// What a client asks of the server.
#[derive(Debug)]
pub enum Request {
    /// Bind `value` to `key`.
    SetKey { key: String, value: String },
    /// Look `key` up.
    Get { key: String },
    /// Unbind `key`.
    Rm { key: String },
}

/// What the server answers: whether the request succeeded, and the value
/// found, the error's text, or nothing.
#[derive(Debug)]
pub struct Response {
    pub is_ok: bool,
    pub data: String,
}

impl Response {
    /// The answer with the given outcome and text.
    pub fn new(is_ok: bool, data: String) -> (resp: Response)
        ensures
            resp.is_ok == is_ok,
            resp.data == data,
    {
        Response { is_ok, data }
    }
}

/// Whether `resp` answers a `Set` or `Rm` request for which the engine
/// returned `result`: success with no text, or failure with the error's text.
pub open spec fn is_write_reply(resp: Response, result: Result<(), KvsError>) -> bool {
    match result {
        Ok(_) => resp.is_ok && resp.data@ == Seq::<char>::empty(),
        Err(e) => !resp.is_ok && (e.text() matches Some(text) ==> resp.data@ == text),
    }
}

/// Whether `resp` answers a `Get` request for which the engine returned
/// `result`: success with the value, success with no text for a key that is
/// not bound, or failure with the error's text.
pub open spec fn is_read_reply(resp: Response, result: Result<Option<String>, KvsError>) -> bool {
    match result {
        Ok(Some(value)) => resp.is_ok && resp.data@ == value@,
        Ok(None) => resp.is_ok && resp.data@ == Seq::<char>::empty(),
        Err(e) => !resp.is_ok && (e.text() matches Some(text) ==> resp.data@ == text),
    }
}

/// The answer to a `Set` or `Rm` request, given what the engine returned:
/// success with no text, or failure with the error's text.
pub fn write_reply(result: Result<(), KvsError>) -> (resp: Response)
    ensures
        is_write_reply(resp, result),
{
    match result {
        Ok(_) => Response::new(true, String::new()),
        Err(e) => Response::new(false, e.message()),
    }
}

/// The answer to a `Get` request, given what the engine returned: success
/// with the value, success with no text for a key that is not bound, or
/// failure with the error's text.
pub fn read_reply(result: Result<Option<String>, KvsError>) -> (resp: Response)
    ensures
        is_read_reply(resp, result),
{
    match result {
        Ok(Some(value)) => Response::new(true, value),
        Ok(None) => Response::new(true, String::new()),
        Err(e) => Response::new(false, e.message()),
    }
}

/// Whether `resp` is the answer to `request` from `engine`: the engine's
/// `set`, `get` or `remove`, called with the key and the value of the
/// request, may return an outcome of which `resp` is the reply.
pub open spec fn is_served<E: KvsEngine>(engine: &E, request: Request, resp: Response) -> bool {
    match request {
        Request::SetKey { key, value } => exists|out: Result<(), KvsError>|
            call_ensures(E::set, (engine, key, value), out) && is_write_reply(resp, out),
        Request::Get { key } => exists|out: Result<Option<String>, KvsError>|
            call_ensures(E::get, (engine, key), out) && is_read_reply(resp, out),
        Request::Rm { key } => exists|out: Result<(), KvsError>|
            call_ensures(E::remove, (engine, key), out) && is_write_reply(resp, out),
    }
}

/// Serves one request: hands its key, and for a `Set` its value, to the
/// engine's `set`, `get` or `remove`, and answers with the reply to what the
/// engine returned. A `Set` or `Rm` that succeeds is so answered without
/// text.
pub fn serve<E: KvsEngine>(engine: &E, request: Request) -> (resp: Response)
    ensures
        is_served(engine, request, resp),
        !(request is Get) && resp.is_ok ==> resp.data@ == Seq::<char>::empty(),
{
    match request {
        Request::SetKey { key, value } => {
            let out = engine.set(key, value);
            write_reply(out)
        },
        Request::Get { key } => {
            let out = engine.get(key);
            read_reply(out)
        },
        Request::Rm { key } => {
            let out = engine.remove(key);
            write_reply(out)
        },
    }
}

/// What a client makes of the answer to a `Set` or `Rm` request: success, or
/// `ServerRespError` with the server's text.
pub fn written(resp: Response) -> (out: Result<(), KvsError>)
    ensures
        match out {
            Ok(_) => resp.is_ok,
            Err(e) => e matches KvsError::ServerRespError(text) && text@ == resp.data@ && !resp.is_ok,
        },
{
    if resp.is_ok {
        Ok(())
    } else {
        Err(KvsError::ServerRespError(resp.data))
    }
}

/// What a client makes of the answer to a `Get` request: the value, no value
/// where the answer's text is empty, or `ServerRespError` with the server's
/// text.
pub fn value_read(resp: Response) -> (out: Result<Option<String>, KvsError>)
    ensures
        match out {
            Ok(None) => resp.is_ok && resp.data@.len() == 0,
            Ok(Some(value)) => resp.is_ok && resp.data@.len() != 0 && value@ == resp.data@,
            Err(e) => e matches KvsError::ServerRespError(text) && text@ == resp.data@ && !resp.is_ok,
        },
{
    if resp.is_ok {
        if resp.data.as_str().is_empty() {
            Ok(None)
        } else {
            Ok(Some(resp.data))
        }
    } else {
        Err(KvsError::ServerRespError(resp.data))
    }
}

/// Whether the answer to a `Get` request says that the key is bound.
pub fn is_bound(resp: Response) -> (out: Result<bool, KvsError>)
    ensures
        match out {
            Ok(bound) => resp.is_ok && bound == (resp.data@.len() != 0),
            Err(e) => e matches KvsError::ServerRespError(text) && text@ == resp.data@ && !resp.is_ok,
        },
{
    match value_read(resp) {
        Ok(found) => Ok(found.is_some()),
        Err(e) => Err(e),
    }
}

} // verus!

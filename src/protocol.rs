//! Requests and responses between a client and the server, and the
//! dispatch of a request to an engine.
use vstd::prelude::*;
use crate::engine::KvsEngine;
use crate::error::{KvsError, message_of};

verus! {

/// A client's request.
#[derive(Debug, PartialEq, Eq)]
pub enum Request {
    Get { key: String },
    Put { key: String, value: String },
    Remove { key: String },
}

/// The server's reply to one request.
#[derive(Debug, PartialEq, Eq)]
pub enum Response {
    /// The reply to a successful `Get`.
    Value(Option<String>),
    /// The reply to a successful `Put` or `Remove`.
    Done,
    /// The text of the error that the request met.
    Failure(String),
}

/// Runs `req` against `engine` and builds the reply; an engine error
/// travels as its text.
pub fn respond<E: KvsEngine>(engine: &mut E, req: Request) -> (r: Response)
    requires
        old(engine).ready(),
    ensures
        final(engine).ready(),
        match req {
            Request::Get { key } => final(engine).contents() == old(engine).contents() && (
            r matches Response::Value(o) ==> (o matches Some(v) ==> old(
                engine,
            ).contents().contains_key(key@) && v@ == old(engine).contents()[key@]) && (o is None
                ==> !old(engine).contents().contains_key(key@))),
            Request::Put { key, value } => r is Done ==> final(engine).contents() == old(
                engine,
            ).contents().insert(key@, value@),
            Request::Remove { key } => (r is Done ==> final(engine).contents() == old(
                engine,
            ).contents().remove(key@)) && (!old(engine).contents().contains_key(key@) ==> (r
                matches Response::Failure(m) && m@ == message_of(KvsError::KeyNotFound))),
        },
{
    match req {
        Request::Get { key } => match engine.get(key) {
            Ok(o) => Response::Value(o),
            Err(e) => Response::Failure(e.message()),
        },
        Request::Put { key, value } => match engine.set(key, value) {
            Ok(()) => Response::Done,
            Err(e) => Response::Failure(e.message()),
        },
        Request::Remove { key } => match engine.remove(key) {
            Ok(()) => Response::Done,
            Err(e) => Response::Failure(e.message()),
        },
    }
}

} // verus!

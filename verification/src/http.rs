//! The HTTP-style request mapping: what status and body each route answers
//! with. The web layer routes requests, takes the engine's result, and
//! renders the reply these functions build.

use vstd::prelude::*;

verus! {

/// A status code and a body: all an HTTP-style front end needs from the
/// core.
pub struct HttpReply {
    pub status: u16,
    pub body: String,
}

/// The reply to `GET /v1/get/{key}`: the value with status 200, or 404 with
/// "Key not found".
pub fn get(value: &Option<String>) -> (r: HttpReply)
    ensures
        value matches Some(v) ==> r.status == 200 && r.body@ == v@,
        value is None ==> r.status == 404 && r.body@ == "Key not found"@,
{
    match value {
        Some(v) => HttpReply { status: 200, body: v.clone() },
        None => HttpReply { status: 404, body: String::from_str("Key not found") },
    }
}

/// The reply to a successful `POST /v1/set/{key}/{value}`: 200 with an
/// empty body.
pub fn set() -> (r: HttpReply)
    ensures
        r.status == 200,
        r.body@ == Seq::<char>::empty(),
{
    HttpReply { status: 200, body: String::new() }
}

/// The reply to `POST /v1/rm/{key}`: 200 with an empty body when a value
/// was removed, 404 with "Key not found" when the key was absent.
pub fn remove(removed: &Option<String>) -> (r: HttpReply)
    ensures
        removed is Some ==> r.status == 200 && r.body@ == Seq::<char>::empty(),
        removed is None ==> r.status == 404 && r.body@ == "Key not found"@,
{
    match removed {
        Some(_) => HttpReply { status: 200, body: String::new() },
        None => HttpReply { status: 404, body: String::from_str("Key not found") },
    }
}

/// The reply when the engine itself failed: 500 with the failure's text.
pub fn engine_failure(message: String) -> (r: HttpReply)
    ensures
        r.status == 500,
        r.body@ == message@,
{
    HttpReply { status: 500, body: message }
}

/// The reply to any unmatched route: 404 with "Not found".
pub fn not_found() -> (r: HttpReply)
    ensures
        r.status == 404,
        r.body@ == "Not found"@,
{
    HttpReply { status: 404, body: String::from_str("Not found") }
}

} // verus!

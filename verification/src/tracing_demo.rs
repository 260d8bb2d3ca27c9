//! What the server of the tracing demonstration asks and answers.

use vstd::prelude::*;

verus! {

/// The request that the server sends to itself for `path`.
pub fn client_request(path: &str) -> (r: String)
    ensures
        r@ == "http://127.0.0.1:8080/"@ + path@,
{
    "http://127.0.0.1:8080/".to_owned().concat(path)
}

/// The answer to a request for `path`.
pub fn echo(path: &str) -> (r: String)
    ensures
        r@ == "OK "@ + path@,
{
    "OK ".to_owned().concat(path)
}

} // verus!

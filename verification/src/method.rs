//! The closed set of HTTP request methods and their wire-format names.
use vstd::prelude::*;

verus! {

/// An HTTP request method.
#[derive(Clone, Copy, Debug, PartialEq, Eq, Structural)]
pub enum Method {
    OPTIONS,
    GET,
    HEAD,
    POST,
    PUT,
    DELETE,
    TRACE,
    CONNECT,
}

/// The wire-format name of a method.
pub open spec fn spec_method_str(m: Method) -> Seq<char> {
    match m {
        Method::OPTIONS => "OPTIONS"@,
        Method::GET => "GET"@,
        Method::HEAD => "HEAD"@,
        Method::POST => "POST"@,
        Method::PUT => "PUT"@,
        Method::DELETE => "DELETE"@,
        Method::TRACE => "TRACE"@,
        Method::CONNECT => "CONNECT"@,
    }
}

/// The wire-format name of a method, as an owned string.
pub fn to_string(method: Method) -> (r: String)
    ensures
        r@ == spec_method_str(method),
{
    match method {
        Method::OPTIONS => String::from_str("OPTIONS"),
        Method::GET => String::from_str("GET"),
        Method::HEAD => String::from_str("HEAD"),
        Method::POST => String::from_str("POST"),
        Method::PUT => String::from_str("PUT"),
        Method::DELETE => String::from_str("DELETE"),
        Method::TRACE => String::from_str("TRACE"),
        Method::CONNECT => String::from_str("CONNECT"),
    }
}

} // verus!

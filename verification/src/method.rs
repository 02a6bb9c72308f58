//! The closed set of HTTP methods the framework serves.

use vstd::prelude::*;
use crate::strutil::str_eq;

verus! {

#[derive(Clone, Copy, Debug, PartialEq, Eq, Structural, Hash)]
pub enum Method {
    GET,
    POST,
    PUT,
    DELETE,
}

/// The method named by a token; an unrecognized token names `GET`, a
/// documented leniency of the wire format.
pub open spec fn method_of(s: Seq<char>) -> Method {
    if s == "GET"@ {
        Method::GET
    } else if s == "POST"@ {
        Method::POST
    } else if s == "PUT"@ {
        Method::PUT
    } else if s == "DELETE"@ {
        Method::DELETE
    } else {
        Method::GET
    }
}

impl Method {
    /// The method's upper-case name on the wire.
    pub open spec fn spec_name(self) -> Seq<char> {
        match self {
            Method::GET => "GET"@,
            Method::POST => "POST"@,
            Method::PUT => "PUT"@,
            Method::DELETE => "DELETE"@,
        }
    }

    /// The method's lower-case name, as error messages spell it.
    pub open spec fn spec_lower_name(self) -> Seq<char> {
        match self {
            Method::GET => "get"@,
            Method::POST => "post"@,
            Method::PUT => "put"@,
            Method::DELETE => "delete"@,
        }
    }

    pub fn from(method: &str) -> (m: Method)
        ensures
            m == method_of(method@),
    {
        if str_eq(method, "GET") {
            Method::GET
        } else if str_eq(method, "POST") {
            Method::POST
        } else if str_eq(method, "PUT") {
            Method::PUT
        } else if str_eq(method, "DELETE") {
            Method::DELETE
        } else {
            Method::GET
        }
    }

    pub fn as_str(self) -> (r: &'static str)
        ensures
            r@ == self.spec_name(),
    {
        match self {
            Method::GET => "GET",
            Method::POST => "POST",
            Method::PUT => "PUT",
            Method::DELETE => "DELETE",
        }
    }

    pub fn as_lower_str(self) -> (r: &'static str)
        ensures
            r@ == self.spec_lower_name(),
    {
        match self {
            Method::GET => "get",
            Method::POST => "post",
            Method::PUT => "put",
            Method::DELETE => "delete",
        }
    }
}

} // verus!

//! The response builder and its exact wire format.
//!
//! A response is a status code, a header map and a body.  Serialization is
//! byte-exact: the status line, each header as `Name: value`, a blank line,
//! then the body, all lines ended by `\r\n`.  Every connection starts from a
//! private copy of the server's default response, so no header leaks from
//! one request to the next.

use vstd::prelude::*;
use crate::request::{assoc_set, assoc_set_vec};
use crate::strutil::pairs_view;

verus! {

/// The status vocabulary the framework writes.
#[derive(Clone, Copy, Debug, PartialEq, Eq, Structural)]
pub enum HttpStateCode {
    StatusOK,
    StatusNotFound,
}

impl HttpStateCode {
    /// The full status line for this code.
    pub open spec fn spec_status_line(self) -> Seq<char> {
        match self {
            HttpStateCode::StatusOK => "HTTP/1.1 200 OK"@,
            HttpStateCode::StatusNotFound => "HTTP/1.1 404 NOT FOUND"@,
        }
    }

    pub fn status_line(self) -> (r: &'static str)
        ensures
            r@ == self.spec_status_line(),
    {
        match self {
            HttpStateCode::StatusOK => "HTTP/1.1 200 OK",
            HttpStateCode::StatusNotFound => "HTTP/1.1 404 NOT FOUND",
        }
    }
}

/// The mathematical model of a response.
#[verifier::ext_equal]
pub struct RespModel {
    pub code: HttpStateCode,
    pub headers: Seq<(Seq<char>, Seq<char>)>,
    pub body: Seq<char>,
}

/// The header lines on the wire, one `Name: value\r\n` per header, in map
/// order.
pub open spec fn header_block(hs: Seq<(Seq<char>, Seq<char>)>) -> Seq<char>
    decreases hs.len(),
{
    if hs.len() == 0 {
        Seq::empty()
    } else {
        header_block(hs.drop_last()) + hs.last().0 + ": "@ + hs.last().1 + "\r\n"@
    }
}

/// The serialized response: status line, header lines, blank line, body.
pub open spec fn spec_serialize(r: RespModel) -> Seq<char> {
    r.code.spec_status_line() + "\r\n"@ + header_block(r.headers) + "\r\n"@ + r.body
}

/// One response under construction.
#[derive(Debug)]
pub struct HttpResponse {
    pub state_code: HttpStateCode,
    pub headers: Vec<(String, String)>,
    pub body: String,
}

impl View for HttpResponse {
    type V = RespModel;

    open spec fn view(&self) -> RespModel {
        RespModel {
            code: self.state_code,
            headers: pairs_view(self.headers@),
            body: self.body@,
        }
    }
}

impl HttpResponse {
    /// An OK response with no headers and an empty body.
    pub fn new() -> (r: Self)
        ensures
            r@ == (RespModel {
                code: HttpStateCode::StatusOK,
                headers: Seq::empty(),
                body: Seq::empty(),
            }),
    {
        let r = HttpResponse {
            state_code: HttpStateCode::StatusOK,
            headers: Vec::new(),
            body: String::new(),
        };
        proof {
            assert(r@.headers =~= Seq::<(Seq<char>, Seq<char>)>::empty());
            assert(r@ =~= (RespModel {
                code: HttpStateCode::StatusOK,
                headers: Seq::empty(),
                body: Seq::empty(),
            }));
        }
        r
    }

    /// Set or replace a header.
    pub fn insert_header(&mut self, key: &str, value: &str)
        ensures
            final(self)@ == (RespModel {
                headers: assoc_set(old(self)@.headers, key@, value@),
                ..old(self)@
            }),
    {
        assoc_set_vec(&mut self.headers, key.to_owned(), value.to_owned());
        proof {
            assert(self@ =~= (RespModel {
                headers: assoc_set(old(self)@.headers, key@, value@),
                ..old(self)@
            }));
        }
    }

    /// Replace the status code.
    pub fn set_http_state_code(&mut self, code: HttpStateCode)
        ensures
            final(self)@ == (RespModel { code: code, ..old(self)@ }),
    {
        self.state_code = code;
        proof {
            assert(self@ =~= (RespModel { code: code, ..old(self)@ }));
        }
    }

    /// Append text to the body.
    pub fn write_str(&mut self, s: &str)
        ensures
            final(self)@ == (RespModel { body: old(self)@.body + s@, ..old(self)@ }),
    {
        self.body.append(s);
        proof {
            assert(self@ =~= (RespModel { body: old(self)@.body + s@, ..old(self)@ }));
        }
    }

    /// A fresh copy, so each connection mutates its own response.
    pub fn duplicate(&self) -> (r: Self)
        ensures
            r@ == self@,
    {
        let mut headers: Vec<(String, String)> = Vec::new();
        let mut i: usize = 0;
        while i < self.headers.len()
            invariant
                i <= self.headers.len(),
                headers@.len() == i as int,
                forall|t: int|
                    0 <= t < i ==> (#[trigger] headers@[t]).0@ == self.headers@[t].0@
                        && headers@[t].1@ == self.headers@[t].1@,
            decreases self.headers.len() - i,
        {
            let k = self.headers[i].0.clone();
            let v = self.headers[i].1.clone();
            headers.push((k, v));
            i += 1;
        }
        let r = HttpResponse {
            state_code: self.state_code,
            headers,
            body: self.body.clone(),
        };
        proof {
            assert(r@.headers =~= self@.headers);
            assert(r@ =~= self@);
        }
        r
    }

    /// The exact bytes to write back on the connection.
    #[verifier::loop_isolation(false)]
    pub fn to_http_string(&self) -> (r: String)
        ensures
            r@ == spec_serialize(self@),
    {
        let ghost hs = pairs_view(self.headers@);
        let mut out = String::new();
        out.append(self.state_code.status_line());
        out.append("\r\n");
        let mut i: usize = 0;
        proof {
            assert(hs.take(0) =~= Seq::<(Seq<char>, Seq<char>)>::empty());
        }
        while i < self.headers.len()
            invariant
                i <= self.headers.len(),
                out@ == self@.code.spec_status_line() + "\r\n"@ + header_block(hs.take(i as int)),
            decreases self.headers.len() - i,
        {
            proof {
                assert(hs[i as int] == (self.headers@[i as int].0@, self.headers@[i as int].1@));
            }
            out.append(self.headers[i].0.as_str());
            out.append(": ");
            out.append(self.headers[i].1.as_str());
            out.append("\r\n");
            proof {
                let pref = hs.take(i + 1 as int);
                assert(pref.drop_last() =~= hs.take(i as int));
                assert(pref.last() == hs[i as int]);
                assert(out@ =~= self@.code.spec_status_line() + "\r\n"@ + header_block(pref));
            }
            i += 1;
        }
        proof {
            assert(hs.take(hs.len() as int) =~= hs);
        }
        out.append("\r\n");
        out.append(self.body.as_str());
        proof {
            assert(out@ =~= spec_serialize(self@));
        }
        out
    }
}

impl Default for HttpResponse {
    /// Same as `new`: an OK response with nothing in it.
    fn default() -> (r: Self)
        ensures
            r@ == (RespModel {
                code: HttpStateCode::StatusOK,
                headers: Seq::empty(),
                body: Seq::empty(),
            }),
    {
        HttpResponse::new()
    }
}

} // verus!

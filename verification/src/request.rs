//! The request parser: turns the raw text of one connection into a
//! structured request.
//!
//! The wire grammar is a tolerant HTTP/1.x subset: a request line of method,
//! target and version separated by blank space, then header lines `Name:
//! value` up to the first empty line, then the body, all lines separated by
//! `\r\n` or `\n`.  Text without the protocol marker parses to a default
//! request rather than an error; a request line with fewer than three tokens
//! or a header line without a colon is a parse error, fatal to the
//! connection.

use vstd::prelude::*;
use vstd::pervasive::VecAdditionalExecFns;
use crate::method::{Method, method_of};
use crate::strutil::{
    Sep, concat_all, concat_range, contains_http_marker, find_sep, find_sep_from, has_http_marker,
    pairs_view, split_nonempty, split_nonempty_str, split_sep, split_sep_str, str_eq, trim_str,
    trim_ws,
};

verus! {

/// The HTTP versions the framework recognizes on the request line.
#[derive(Clone, Copy, Debug, PartialEq, Eq, Structural)]
pub enum Version {
    V1_1,
    V2_0,
    NoSupport,
}

/// The version named by a request-line token.
pub open spec fn version_of(s: Seq<char>) -> Version {
    if s == "HTTP/1.1"@ {
        Version::V1_1
    } else if s == "HTTP/2.0"@ {
        Version::V2_0
    } else {
        Version::NoSupport
    }
}

impl Version {
    pub fn from(version: &str) -> (v: Version)
        ensures
            v == version_of(version@),
    {
        if str_eq(version, "HTTP/1.1") {
            Version::V1_1
        } else if str_eq(version, "HTTP/2.0") {
            Version::V2_0
        } else {
            Version::NoSupport
        }
    }
}

/// A rescue target: a path a request may be redirected to.
#[derive(Debug)]
pub enum Rescues {
    Path(String),
}

impl Rescues {
    pub fn from(rescues: &str) -> (r: Rescues)
        ensures
            r matches Rescues::Path(p) && p@ == rescues@,
    {
        Rescues::Path(rescues.to_owned())
    }
}

impl PartialEq for Rescues {
    fn eq(&self, other: &Rescues) -> (r: bool) {
        match (self, other) {
            (Rescues::Path(a), Rescues::Path(b)) => str_eq(a.as_str(), b.as_str()),
        }
    }
}

impl vstd::std_specs::cmp::PartialEqSpecImpl for Rescues {
    open spec fn obeys_eq_spec() -> bool {
        true
    }

    open spec fn eq_spec(&self, other: &Rescues) -> bool {
        match (self, other) {
            (Rescues::Path(a), Rescues::Path(b)) => a@ == b@,
        }
    }
}

/// Why a connection's text could not be parsed; either way the connection's
/// job is abandoned without writing a response.
#[derive(Clone, Copy, Debug, PartialEq, Eq, Structural)]
pub enum ParseError {
    /// The request line holds fewer than three tokens.
    BadRequestLine,
    /// A header line holds no colon.
    BadHeaderLine,
}

/// The mathematical model of a request.
#[verifier::ext_equal]
pub struct ReqModel {
    pub method: Method,
    pub uri: Seq<char>,
    pub version: Version,
    pub headers: Seq<(Seq<char>, Seq<char>)>,
    pub body: Option<Seq<char>>,
    pub more: Seq<(Seq<char>, Seq<char>)>,
    pub params: Option<Seq<char>>,
}

/// The default request that text without the protocol marker parses to.
pub open spec fn default_req() -> ReqModel {
    ReqModel {
        method: Method::GET,
        uri: "/"@,
        version: Version::V1_1,
        headers: seq![("Content-Type"@, "text/html"@)],
        body: None,
        more: Seq::empty(),
        params: Some(Seq::empty()),
    }
}

/// A line without its trailing carriage return.
pub open spec fn strip_cr(l: Seq<char>) -> Seq<char> {
    if l.len() > 0 && l.last() == '\r' {
        l.drop_last()
    } else {
        l
    }
}

/// The lines of `s`: the pieces between `\n`, each piece that a newline
/// ended losing its trailing `\r`, and the empty piece a trailing newline
/// leaves dropped.  A final piece not ended by a newline keeps a trailing
/// `\r` it may have.  Splitting a nonempty text yields at least one piece,
/// so `last` below is always meaningful.
pub open spec fn spec_lines(s: Seq<char>) -> Seq<Seq<char>> {
    if s.len() == 0 {
        Seq::empty()
    } else {
        let ps = split_sep(s, Sep::Newline);
        if ps.last().len() == 0 {
            ps.drop_last().map_values(|l: Seq<char>| strip_cr(l))
        } else {
            ps.drop_last().map_values(|l: Seq<char>| strip_cr(l)).push(ps.last())
        }
    }
}

#[verifier::loop_isolation(false)]
fn lines_of(s: &str) -> (ls: Vec<String>)
    ensures
        ls@.map_values(|l: String| l@) == spec_lines(s@),
{
    if s.is_empty() {
        let r: Vec<String> = Vec::new();
        proof {
            assert(r@.map_values(|l: String| l@) =~= spec_lines(s@));
        }
        return r;
    }
    let mut ps = split_sep_str(s, Sep::Newline);
    let ghost ps0 = ps@.map_values(|l: String| l@);
    proof {
        crate::strutil::lemma_split_sep_len(s@, Sep::Newline);
        assert(ps0.last() == ps@[ps@.len() - 1]@);
    }
    let mut ends_with_break = false;
    if ps[ps.len() - 1].as_str().is_empty() {
        let _ = ps.pop();
        ends_with_break = true;
        proof {
            assert(ps@.map_values(|l: String| l@) =~= ps0.drop_last());
        }
    }
    let ghost qs = ps@.map_values(|l: String| l@);
    // Strip the `\r` from every piece a newline ended: all of them when the
    // text ended with a newline, all but the last one otherwise.
    let stop = if ends_with_break {
        ps.len()
    } else {
        ps.len() - 1
    };
    let mut out: Vec<String> = Vec::new();
    let mut i: usize = 0;
    while i < stop
        invariant
            i <= stop <= ps.len(),
            qs == ps@.map_values(|l: String| l@),
            out@.len() == i as int,
            forall|t: int| 0 <= t < i ==> (#[trigger] out@[t])@ == strip_cr(qs[t]),
        decreases stop - i,
    {
        proof {
            assert(qs[i as int] == ps@[i as int]@);
        }
        let li = &ps[i];
        let n = li.as_str().unicode_len();
        if n > 0 && li.as_str().get_char(n - 1) == '\r' {
            let stripped = li.as_str().substring_char(0, n - 1).to_owned();
            proof {
                assert(stripped@ =~= strip_cr(qs[i as int]));
            }
            out.push(stripped);
        } else {
            out.push(li.clone());
            proof {
                assert(qs[i as int] == strip_cr(qs[i as int]));
            }
        }
        i += 1;
    }
    if !ends_with_break {
        let last = ps[ps.len() - 1].clone();
        out.push(last);
    }
    proof {
        if ends_with_break {
            assert(out@.map_values(|l: String| l@) =~= ps0.drop_last().map_values(
                |l: Seq<char>| strip_cr(l),
            ));
        } else {
            assert(qs =~= ps0);
            assert(qs[qs.len() - 1] == ps@[ps@.len() - 1]@);
            assert(out@.map_values(|l: String| l@) =~= ps0.drop_last().map_values(
                |l: Seq<char>| strip_cr(l),
            ).push(ps0.last()));
        }
    }
    out
}

/// The value of the first pair named `k`.
pub open spec fn assoc_get(m: Seq<(Seq<char>, Seq<char>)>, k: Seq<char>) -> Option<Seq<char>>
    decreases m.len(),
{
    if m.len() == 0 {
        None
    } else if m[0].0 == k {
        Some(m[0].1)
    } else {
        assoc_get(m.skip(1), k)
    }
}

/// `m` with the first pair named `k` replaced by `(k, v)`, or `(k, v)`
/// appended when no pair is named `k`.
pub open spec fn assoc_set(
    m: Seq<(Seq<char>, Seq<char>)>,
    k: Seq<char>,
    v: Seq<char>,
) -> Seq<(Seq<char>, Seq<char>)>
    decreases m.len(),
{
    if m.len() == 0 {
        seq![(k, v)]
    } else if m[0].0 == k {
        seq![(k, v)] + m.skip(1)
    } else {
        seq![m[0]] + assoc_set(m.skip(1), k, v)
    }
}

proof fn lemma_assoc_set_found(mv: Seq<(Seq<char>, Seq<char>)>, k: Seq<char>, v: Seq<char>, j: int)
    requires
        0 <= j < mv.len(),
        mv[j].0 == k,
        forall|t: int| 0 <= t < j ==> (#[trigger] mv[t].0) != k,
    ensures
        assoc_set(mv, k, v) == mv.update(j, (k, v)),
    decreases mv.len(),
{
    if j == 0 {
        assert(seq![(k, v)] + mv.skip(1) =~= mv.update(0, (k, v)));
    } else {
        assert(mv[0].0 != k);
        let t = mv.skip(1);
        assert forall|u: int| 0 <= u < j - 1 implies (#[trigger] t[u].0) != k by {
            assert(t[u] == mv[u + 1]);
        }
        assert(t[j - 1] == mv[j]);
        lemma_assoc_set_found(t, k, v, j - 1);
        assert(seq![mv[0]] + t.update(j - 1, (k, v)) =~= mv.update(j, (k, v)));
    }
}

proof fn lemma_assoc_set_missing(mv: Seq<(Seq<char>, Seq<char>)>, k: Seq<char>, v: Seq<char>)
    requires
        forall|t: int| 0 <= t < mv.len() ==> (#[trigger] mv[t].0) != k,
    ensures
        assoc_set(mv, k, v) == mv.push((k, v)),
    decreases mv.len(),
{
    if mv.len() == 0 {
        assert(seq![(k, v)] =~= mv.push((k, v)));
    } else {
        let t = mv.skip(1);
        assert forall|u: int| 0 <= u < t.len() implies (#[trigger] t[u].0) != k by {
            assert(t[u] == mv[u + 1]);
        }
        lemma_assoc_set_missing(t, k, v);
        assert(seq![mv[0]] + t.push((k, v)) =~= mv.push((k, v)));
    }
}

proof fn lemma_assoc_get_found(mv: Seq<(Seq<char>, Seq<char>)>, k: Seq<char>, j: int)
    requires
        0 <= j < mv.len(),
        mv[j].0 == k,
        forall|t: int| 0 <= t < j ==> (#[trigger] mv[t].0) != k,
    ensures
        assoc_get(mv, k) == Some(mv[j].1),
    decreases mv.len(),
{
    if j == 0 {
    } else {
        let t = mv.skip(1);
        assert forall|u: int| 0 <= u < j - 1 implies (#[trigger] t[u].0) != k by {
            assert(t[u] == mv[u + 1]);
        }
        assert(t[j - 1] == mv[j]);
        lemma_assoc_get_found(t, k, j - 1);
    }
}

proof fn lemma_assoc_get_missing(mv: Seq<(Seq<char>, Seq<char>)>, k: Seq<char>)
    requires
        forall|t: int| 0 <= t < mv.len() ==> (#[trigger] mv[t].0) != k,
    ensures
        assoc_get(mv, k) is None,
    decreases mv.len(),
{
    if mv.len() == 0 {
    } else {
        let t = mv.skip(1);
        assert forall|u: int| 0 <= u < t.len() implies (#[trigger] t[u].0) != k by {
            assert(t[u] == mv[u + 1]);
        }
        lemma_assoc_get_missing(t, k);
    }
}

/// Replace or append the pair named `k` in an owned association list.
pub(crate) fn assoc_set_vec(m: &mut Vec<(String, String)>, k: String, v: String)
    ensures
        pairs_view(final(m)@) == assoc_set(pairs_view(old(m)@), k@, v@),
{
    let ghost mv = pairs_view(m@);
    let mut j: usize = 0;
    while j < m.len()
        invariant
            j <= m.len(),
            m@ == old(m)@,
            mv == pairs_view(m@),
            mv.len() == m@.len(),
            forall|t: int| 0 <= t < j ==> (#[trigger] mv[t].0) != k@,
        decreases m.len() - j,
    {
        proof {
            assert(mv[j as int] == (m@[j as int].0@, m@[j as int].1@));
        }
        if str_eq(m[j].0.as_str(), k.as_str()) {
            proof {
                lemma_assoc_set_found(mv, k@, v@, j as int);
            }
            m.set(j, (k, v));
            proof {
                assert(pairs_view(m@) =~= mv.update(j as int, (k@, v@)));
            }
            return ;
        }
        j += 1;
    }
    proof {
        lemma_assoc_set_missing(mv, k@, v@);
    }
    m.push((k, v));
    proof {
        assert(pairs_view(m@) =~= mv.push((k@, v@)));
    }
}

/// Find the value of the first pair named `k`.
fn assoc_get_vec<'a>(m: &'a Vec<(String, String)>, k: &str) -> (r: Option<&'a str>)
    ensures
        match r {
            Some(v) => assoc_get(pairs_view(m@), k@) == Some(v@),
            None => assoc_get(pairs_view(m@), k@) is None,
        },
{
    let ghost mv = pairs_view(m@);
    let mut j: usize = 0;
    while j < m.len()
        invariant
            j <= m.len(),
            mv == pairs_view(m@),
            mv.len() == m@.len(),
            forall|t: int| 0 <= t < j ==> (#[trigger] mv[t].0) != k@,
        decreases m.len() - j,
    {
        proof {
            assert(mv[j as int] == (m@[j as int].0@, m@[j as int].1@));
        }
        if str_eq(m[j].0.as_str(), k) {
            proof {
                lemma_assoc_get_found(mv, k@, j as int);
            }
            return Some(m[j].1.as_str());
        }
        j += 1;
    }
    proof {
        lemma_assoc_get_missing(mv, k@);
    }
    None
}

/// Index of the first empty line at or after `from`, or the line count.
pub open spec fn first_empty(ls: Seq<Seq<char>>, from: int) -> int
    decreases ls.len() - from,
{
    if !(0 <= from < ls.len()) {
        ls.len() as int
    } else if ls[from].len() == 0 {
        from
    } else {
        first_empty(ls, from + 1)
    }
}

proof fn lemma_first_empty_at(ls: Seq<Seq<char>>, from: int, e: int)
    requires
        0 <= from <= e <= ls.len(),
        forall|j: int| from <= j < e ==> (#[trigger] ls[j]).len() > 0,
        e < ls.len() ==> ls[e].len() == 0,
    ensures
        first_empty(ls, from) == e,
    decreases e - from,
{
    if from == e {
    } else {
        lemma_first_empty_at(ls, from + 1, e);
    }
}

/// The header lines folded into an association list, last write winning; a
/// line without a colon is a parse error.
pub open spec fn spec_headers(
    ls: Seq<Seq<char>>,
    acc: Seq<(Seq<char>, Seq<char>)>,
) -> Result<Seq<(Seq<char>, Seq<char>)>, ParseError>
    decreases ls.len(),
{
    if ls.len() == 0 {
        Ok(acc)
    } else {
        let l = ls[0];
        let c = find_sep(l, Sep::Colon);
        if c == l.len() {
            Err(ParseError::BadHeaderLine)
        } else {
            spec_headers(ls.skip(1), assoc_set(acc, l.take(c), trim_ws(l.skip(c + 1))))
        }
    }
}

/// The parse of request text that carries the protocol marker: the request
/// line's three tokens name the method, the target and the version; the
/// target splits at its first `?` into the uri and the raw query string; the
/// lines before the first empty line are headers; the lines after it, joined
/// with nothing between them, are the body, absent when there are none.
pub open spec fn spec_request(s: Seq<char>) -> Result<ReqModel, ParseError> {
    let ls = spec_lines(s);
    if ls.len() == 0 {
        Err(ParseError::BadRequestLine)
    } else {
        let toks = split_nonempty(ls[0], Sep::Space);
        if toks.len() < 3 {
            Err(ParseError::BadRequestLine)
        } else {
            let target = toks[1];
            let q = find_sep(target, Sep::Question);
            let e = first_empty(ls, 1);
            match spec_headers(ls.subrange(1, e), Seq::empty()) {
                Err(pe) => Err(pe),
                Ok(hs) => Ok(
                    ReqModel {
                        method: method_of(toks[0]),
                        uri: target.take(q),
                        version: version_of(toks[2]),
                        headers: hs,
                        body: if e + 1 < ls.len() {
                            Some(concat_all(ls.skip(e + 1)))
                        } else {
                            None
                        },
                        more: Seq::empty(),
                        params: Some(
                            if q == target.len() {
                                Seq::empty()
                            } else {
                                target.skip(q + 1)
                            },
                        ),
                    },
                ),
            }
        }
    }
}

/// What any request text becomes: the parse when the protocol marker occurs
/// in it, the default request otherwise.
pub open spec fn spec_from(s: Seq<char>) -> Result<ReqModel, ParseError> {
    if has_http_marker(s) {
        spec_request(s)
    } else {
        Ok(default_req())
    }
}

/// Extension hooks for connection metadata attached to a request.
pub trait HttpRequestExtend {
    fn set_remote_addr(&mut self, addr: &str);

    fn get_remote_addr(&self) -> String;
}

/// One parsed request.  Immutable after construction except for the side map
/// `more`, which carries connection metadata such as the peer address.
#[derive(Debug)]
pub struct HttpRequest {
    pub method: Method,
    pub uri: String,
    pub version: Version,
    pub headers: Vec<(String, String)>,
    pub body: Option<String>,
    pub more: Vec<(String, String)>,
    pub params: Option<String>,
}

impl View for HttpRequest {
    type V = ReqModel;

    open spec fn view(&self) -> ReqModel {
        ReqModel {
            method: self.method,
            uri: self.uri@,
            version: self.version,
            headers: pairs_view(self.headers@),
            body: match self.body {
                Some(b) => Some(b@),
                None => None,
            },
            more: pairs_view(self.more@),
            params: match self.params {
                Some(p) => Some(p@),
                None => None,
            },
        }
    }
}

impl HttpRequest {
    /// Parse request text that is expected to follow the wire grammar.
    #[verifier::loop_isolation(false)]
    pub fn parse_request(request: &str) -> (r: Result<HttpRequest, ParseError>)
        ensures
            r matches Ok(req) ==> spec_request(request@) == Ok::<ReqModel, ParseError>(req@),
            r matches Err(e) ==> spec_request(request@) == Err::<ReqModel, ParseError>(e),
    {
        let ls = lines_of(request);
        let ghost lsv = ls@.map_values(|l: String| l@);
        if ls.len() == 0 {
            return Err(ParseError::BadRequestLine);
        }
        let toks = split_nonempty_str(ls[0].as_str(), Sep::Space);
        let ghost tokv = toks@.map_values(|t: String| t@);
        proof {
            assert(lsv[0] == ls@[0]@);
        }
        if toks.len() < 3 {
            return Err(ParseError::BadRequestLine);
        }
        let method = Method::from(toks[0].as_str());
        let version = Version::from(toks[2].as_str());
        let target = &toks[1];
        let tlen = target.as_str().unicode_len();
        let q = find_sep_from(target.as_str(), Sep::Question, 0);
        proof {
            assert(target@.skip(0) =~= target@);
            assert(tokv[0] == toks@[0]@ && tokv[1] == toks@[1]@ && tokv[2] == toks@[2]@);
        }
        let uri = target.as_str().substring_char(0, q).to_owned();
        let params = if q == tlen {
            String::new()
        } else {
            target.as_str().substring_char(q + 1, tlen).to_owned()
        };
        proof {
            assert(uri@ =~= tokv[1].take(q as int));
            if q != tlen {
                assert(params@ =~= tokv[1].skip(q + 1));
            }
        }
        // The first empty line separates the headers from the body.
        let mut e: usize = 1;
        while e < ls.len() && !ls[e].as_str().is_empty()
            invariant
                1 <= e <= ls.len(),
                lsv == ls@.map_values(|l: String| l@),
                forall|j: int| 1 <= j < e ==> (#[trigger] lsv[j]).len() > 0,
            decreases ls.len() - e,
        {
            proof {
                assert(lsv[e as int] == ls@[e as int]@);
            }
            e += 1;
        }
        proof {
            assert(e < ls.len() ==> lsv[e as int] == ls@[e as int]@);
            lemma_first_empty_at(lsv, 1, e as int);
        }
        let mut headers: Vec<(String, String)> = Vec::new();
        let ghost hdr_target = spec_headers(lsv.subrange(1, e as int), Seq::empty());
        let mut i: usize = 1;
        proof {
            assert(pairs_view(headers@) =~= Seq::<(Seq<char>, Seq<char>)>::empty());
        }
        while i < e
            invariant
                1 <= i <= e <= ls.len(),
                lsv == ls@.map_values(|l: String| l@),
                hdr_target == spec_headers(lsv.subrange(1, e as int), Seq::empty()),
                hdr_target == spec_headers(
                    lsv.subrange(i as int, e as int),
                    pairs_view(headers@),
                ),
            decreases e - i,
        {
            let ghost sub = lsv.subrange(i as int, e as int);
            proof {
                assert(sub[0] == lsv[i as int]);
                assert(lsv[i as int] == ls@[i as int]@);
                assert(sub.skip(1) =~= lsv.subrange(i + 1 as int, e as int));
            }
            let line = &ls[i];
            let llen = line.as_str().unicode_len();
            let c = find_sep_from(line.as_str(), Sep::Colon, 0);
            proof {
                assert(line@.skip(0) =~= line@);
            }
            if c == llen {
                return Err(ParseError::BadHeaderLine);
            }
            let key = line.as_str().substring_char(0, c).to_owned();
            let value = trim_str(line.as_str().substring_char(c + 1, llen));
            proof {
                assert(key@ =~= sub[0].take(c as int));
                assert(line@.subrange(c + 1, llen as int) =~= sub[0].skip(c + 1));
            }
            assoc_set_vec(&mut headers, key, value);
            i += 1;
        }
        proof {
            assert(lsv.subrange(e as int, e as int) =~= Seq::<Seq<char>>::empty());
        }
        let body: Option<String> = if e < ls.len() && ls.len() - e > 1 {
            Some(concat_range(&ls, e + 1))
        } else {
            None
        };
        let req = HttpRequest {
            method,
            uri,
            version,
            headers,
            body,
            more: Vec::new(),
            params: Some(params),
        };
        proof {
            assert(pairs_view(req.more@) =~= Seq::<(Seq<char>, Seq<char>)>::empty());
            if q == tlen {
                assert(params@ =~= Seq::<char>::empty());
            }
            let model = ReqModel {
                method: method_of(tokv[0]),
                uri: tokv[1].take(q as int),
                version: version_of(tokv[2]),
                headers: hdr_target->Ok_0,
                body: if (e as int) + 1 < lsv.len() {
                    Some(concat_all(lsv.skip(e + 1 as int)))
                } else {
                    None
                },
                more: Seq::empty(),
                params: Some(
                    if q as int == tokv[1].len() {
                        Seq::empty()
                    } else {
                        tokv[1].skip(q + 1 as int)
                    },
                ),
            };
            assert(req@ =~= model);
            assert(spec_request(request@) == Ok::<ReqModel, ParseError>(model));
        }
        Ok(req)
    }

    /// Parse any connection text: text without the protocol marker becomes
    /// the default request rather than an error.
    pub fn from(request: String) -> (r: Result<HttpRequest, ParseError>)
        ensures
            r matches Ok(req) ==> spec_from(request@) == Ok::<ReqModel, ParseError>(req@),
            r matches Err(e) ==> spec_from(request@) == Err::<ReqModel, ParseError>(e),
    {
        if contains_http_marker(request.as_str()) {
            Self::parse_request(request.as_str())
        } else {
            Ok(HttpRequest::default())
        }
    }

    /// The value of the named header, if any.
    pub fn get_header<'a>(&'a self, key: &str) -> (r: Option<&'a str>)
        ensures
            match r {
                Some(v) => assoc_get(self@.headers, key@) == Some(v@),
                None => assoc_get(self@.headers, key@) is None,
            },
    {
        assoc_get_vec(&self.headers, key)
    }

    pub fn get_uri(&self) -> (r: &str)
        ensures
            r@ == self@.uri,
    {
        self.uri.as_str()
    }

    pub fn get_header_all(&self) -> (r: &Vec<(String, String)>)
        ensures
            pairs_view(r@) == self@.headers,
    {
        &self.headers
    }

    pub fn get_body<'a>(&'a self) -> (r: Option<&'a str>)
        ensures
            match r {
                Some(b) => self@.body == Some(b@),
                None => self@.body is None,
            },
    {
        match &self.body {
            Some(b) => Some(b.as_str()),
            None => None,
        }
    }

    pub fn get_params<'a>(&'a self) -> (r: Option<&'a str>)
        ensures
            match r {
                Some(p) => self@.params == Some(p@),
                None => self@.params is None,
            },
    {
        match &self.params {
            Some(p) => Some(p.as_str()),
            None => None,
        }
    }

    /// Attach the peer address to the request's side map.
    pub fn set_remote_addr(&mut self, addr: &str)
        ensures
            final(self)@ == (ReqModel {
                more: assoc_set(old(self)@.more, "remote_addr"@, addr@),
                ..old(self)@
            }),
    {
        let key = String::from_str("remote_addr");
        assoc_set_vec(&mut self.more, key, addr.to_owned());
        proof {
            assert(self@ =~= ReqModel {
                more: assoc_set(old(self)@.more, "remote_addr"@, addr@),
                ..old(self)@
            });
        }
    }

    /// The peer address attached to the request, or empty text.
    pub fn get_remote_addr(&self) -> (r: String)
        ensures
            r@ == match assoc_get(self@.more, "remote_addr"@) {
                Some(v) => v,
                None => Seq::<char>::empty(),
            },
    {
        match assoc_get_vec(&self.more, "remote_addr") {
            Some(v) => v.to_owned(),
            None => String::new(),
        }
    }

    pub fn get_method(&self) -> (m: Method)
        ensures
            m == self@.method,
    {
        self.method
    }
}

impl Default for HttpRequest {
    /// The request that headerless traffic is treated as.
    fn default() -> (r: Self)
        ensures
            r@ == default_req(),
    {
        let mut headers: Vec<(String, String)> = Vec::new();
        headers.push((String::from_str("Content-Type"), String::from_str("text/html")));
        let r = HttpRequest {
            method: Method::GET,
            uri: String::from_str("/"),
            version: Version::V1_1,
            headers,
            body: None,
            more: Vec::new(),
            params: Some(String::new()),
        };
        proof {
            assert(r@.headers =~= default_req().headers);
            assert(r@.more =~= default_req().more);
            assert(r@.params == default_req().params);
            assert(r@ =~= default_req());
        }
        r
    }
}

} // verus!

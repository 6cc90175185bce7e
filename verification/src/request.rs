//! The request model: a raw HTTP/1.1 request is parsed into its method,
//! path, header mapping and body.  Every piece is specified against the
//! split/trim spec functions of `crate::text`.

use vstd::prelude::*;

verus! {

use crate::strmap::StrMap;
use crate::text::find_char;
use crate::text::find_char_spec;
use crate::text::lemma_find_char_spec;
use crate::text::lemma_split_char_len;
use crate::text::lemma_split_crlf_len;
use crate::text::split_char;
use crate::text::split_char_spec;
use crate::text::split_crlf;
use crate::text::split_crlf_spec;
use crate::text::str_eq;
use crate::text::trim;
use crate::text::trim_spec;
use vstd::string::StrSliceExecFns;
use vstd::string::StringExecFns;

/// The request methods the router distinguishes.  An unrecognized
/// method token is read leniently as `GET`.
#[derive(Clone, Copy, PartialEq, Eq, Structural, Debug)]
pub enum Method {
    GET,
    POST,
}

/// The per-connection error kinds of the library.  `MalformedRequest`
/// aborts the connection without a response; `NoRouteFound` is mapped
/// to a 404 response by the dispatcher.
#[derive(Clone, Copy, PartialEq, Eq, Structural, Debug)]
pub enum HttpError {
    MalformedRequest,
    NoRouteFound,
}

/// A parsed request.  Immutable once constructed, except where a
/// middleware rewrites it before matching.
#[derive(Clone, Debug)]
pub struct Request {
    pub method: Method,
    pub path: String,
    pub headers: StrMap,
    pub body: String,
}

// ---------------------------------------------------------------------
// What parsing yields, at the spec level
// ---------------------------------------------------------------------

/// The lines of the raw request, split on CRLF.
pub open spec fn request_lines(s: Seq<char>) -> Seq<Seq<char>> {
    split_crlf_spec(s)
}

/// The whitespace-delimited tokens of the request line.
pub open spec fn request_tokens(s: Seq<char>) -> Seq<Seq<char>> {
    split_char_spec(request_lines(s)[0], ' ')
}

/// A raw request is well formed when its request line has a path
/// token; otherwise parsing fails with `MalformedRequest`.
pub open spec fn request_well_formed(s: Seq<char>) -> bool {
    request_tokens(s).len() >= 2
}

/// The method named by the first token; unrecognized tokens fall back
/// to `GET`.
pub open spec fn method_of_token(t: Seq<char>) -> Method {
    if t == seq!['G', 'E', 'T'] {
        Method::GET
    } else if t == seq!['P', 'O', 'S', 'T'] {
        Method::POST
    } else {
        Method::GET
    }
}

pub open spec fn method_spec(s: Seq<char>) -> Method {
    method_of_token(request_tokens(s)[0])
}

/// The second token of the request line.
pub open spec fn path_spec(s: Seq<char>) -> Seq<char> {
    request_tokens(s)[1]
}

/// The header mapping of the given lines: each line with a colon is
/// split at its first colon, the value is trimmed, and later lines win
/// over earlier ones with the same name.
pub open spec fn header_lines_map(lines: Seq<Seq<char>>) -> Map<Seq<char>, Seq<char>>
    decreases lines.len(),
{
    if lines.len() == 0 {
        Map::empty()
    } else {
        let m = header_lines_map(lines.drop_last());
        let line = lines.last();
        match find_char_spec(line, ':') {
            Some(k) => m.insert(line.subrange(0, k), trim_spec(line.skip(k + 1))),
            None => m,
        }
    }
}

pub open spec fn headers_spec(s: Seq<char>) -> Map<Seq<char>, Seq<char>> {
    header_lines_map(request_lines(s))
}

/// First position of the CRLF CRLF separator between headers and body,
/// searching from `i`.
pub open spec fn find_body_sep(s: Seq<char>, i: int) -> Option<int>
    decreases s.len() - i,
{
    if i + 4 > s.len() {
        None
    } else if s[i] == '\r' && s[i + 1] == '\n' && s[i + 2] == '\r' && s[i + 3] == '\n' {
        Some(i)
    } else {
        find_body_sep(s, i + 1)
    }
}

/// The CRLF CRLF separator stands at position `i` of `s`.
pub open spec fn body_sep_at(s: Seq<char>, i: int) -> bool {
    &&& 0 <= i
    &&& i + 4 <= s.len()
    &&& s[i] == '\r'
    &&& s[i + 1] == '\n'
    &&& s[i + 2] == '\r'
    &&& s[i + 3] == '\n'
}

/// `find_body_sep` returns the first separator position at or after
/// `i`, and `None` exactly when there is none.
pub proof fn lemma_find_body_sep(s: Seq<char>, i: int)
    requires
        0 <= i,
    ensures
        match find_body_sep(s, i) {
            Some(k) => i <= k && body_sep_at(s, k) && (forall|j: int|
                i <= j < k ==> !body_sep_at(s, j)),
            None => forall|j: int| i <= j ==> !body_sep_at(s, j),
        },
    decreases s.len() - i,
{
    if i + 4 > s.len() {
    } else if s[i] == '\r' && s[i + 1] == '\n' && s[i + 2] == '\r' && s[i + 3] == '\n' {
    } else {
        lemma_find_body_sep(s, i + 1);
    }
}

/// The body: everything after the first blank line separating headers
/// from body, or empty when there is no such separator.
pub open spec fn body_spec(s: Seq<char>) -> Seq<char> {
    match find_body_sep(s, 0) {
        Some(k) => s.skip(k + 4),
        None => Seq::empty(),
    }
}

impl Request {
    /// The first whitespace-delimited token of the first line, read as
    /// a method; unrecognized methods default to `GET`.
    pub fn get_method(request: &str) -> (m: Method)
        ensures
            m == method_spec(request@),
    {
        let lines = split_crlf(request);
        proof {
            lemma_split_crlf_len(request@);
            assert(lines@.len() == lines.deep_view().len());
            assert(lines.deep_view()[0] == lines@[0]@);
        }
        let tokens = split_char(lines[0].as_str(), ' ');
        proof {
            lemma_split_char_len(lines@[0]@, ' ');
            assert(tokens@.len() == tokens.deep_view().len());
            assert(tokens.deep_view()[0] == tokens@[0]@);
            reveal_strlit("GET");
            reveal_strlit("POST");
            assert("GET"@ =~= seq!['G', 'E', 'T']);
            assert("POST"@ =~= seq!['P', 'O', 'S', 'T']);
        }
        if str_eq(tokens[0].as_str(), "GET") {
            Method::GET
        } else if str_eq(tokens[0].as_str(), "POST") {
            Method::POST
        } else {
            Method::GET
        }
    }

    /// The second whitespace-delimited token of the first line, or
    /// `None` when the request line lacks a path token.
    pub fn get_path(request: &str) -> (r: Option<String>)
        ensures
            match r {
                Some(p) => request_well_formed(request@) && p@ == path_spec(request@),
                None => !request_well_formed(request@),
            },
    {
        let lines = split_crlf(request);
        proof {
            lemma_split_crlf_len(request@);
            assert(lines@.len() == lines.deep_view().len());
            assert(lines.deep_view()[0] == lines@[0]@);
        }
        let tokens = split_char(lines[0].as_str(), ' ');
        proof {
            assert(tokens@.len() == tokens.deep_view().len());
        }
        if tokens.len() >= 2 {
            proof {
                assert(tokens.deep_view()[1] == tokens@[1]@);
            }
            Some(tokens[1].clone())
        } else {
            None
        }
    }

    /// Every line containing a colon contributes a header: the name is
    /// what precedes the first colon, the value is what follows it,
    /// trimmed; later duplicates win.
    pub fn get_headers(request: &str) -> (r: StrMap)
        ensures
            r@ == headers_spec(request@),
    {
        let lines = split_crlf(request);
        let mut m = StrMap::new();
        let mut i: usize = 0;
        proof {
            assert(lines.deep_view().take(0) =~~= Seq::<Seq<char>>::empty());
        }
        while i < lines.len()
            invariant
                i <= lines@.len(),
                lines.deep_view() == request_lines(request@),
                m@ == header_lines_map(lines.deep_view().take(i as int)),
            decreases lines@.len() - i,
        {
            proof {
                assert(lines.deep_view()[i as int] == lines@[i as int]@);
                assert(lines.deep_view().take(i + 1).drop_last() =~~= lines.deep_view().take(
                    i as int,
                ));
                assert(lines.deep_view().take(i + 1).last() == lines.deep_view()[i as int]);
            }
            let line = &lines[i];
            match find_char(line.as_str(), ':') {
                Some(k) => {
                    proof {
                        lemma_find_char_spec(line@, ':');
                    }
                    let len = line.as_str().unicode_len();
                    let key = line.as_str().substring_char(0, k).to_owned();
                    let value = trim(line.as_str().substring_char(k + 1, len));
                    proof {
                        assert(key@ =~= line@.subrange(0, k as int));
                        assert(line@.subrange(k + 1, line@.len() as int) =~= line@.skip(k + 1));
                    }
                    m.insert(key, value);
                },
                None => {
                },
            }
            i = i + 1;
        }
        proof {
            assert(lines.deep_view().take(lines@.len() as int) =~~= lines.deep_view());
        }
        m
    }

    /// Everything after the first blank line separating headers from
    /// body; empty when no such separator is present.
    pub fn get_body(request: &str) -> (r: String)
        ensures
            r@ == body_spec(request@),
    {
        let n = request.unicode_len();
        let mut i: usize = 0;
        while n >= 4 && i <= n - 4
            invariant
                n == request@.len(),
                i <= n,
                find_body_sep(request@, 0) == find_body_sep(request@, i as int),
            decreases n - i,
        {
            if request.get_char(i) == '\r' && request.get_char(i + 1) == '\n' && request.get_char(
                i + 2,
            ) == '\r' && request.get_char(i + 3) == '\n' {
                let body = request.substring_char(i + 4, n).to_owned();
                proof {
                    assert(find_body_sep(request@, i as int) == Some(i as int));
                    assert(body@ =~= request@.skip(i + 4));
                }
                return body;
            }
            i = i + 1;
        }
        proof {
            assert(find_body_sep(request@, i as int) is None);
        }
        String::new()
    }

    /// Parse a raw request.  Fails exactly when the request line lacks
    /// a path token; the connection is then closed with no response.
    pub fn from(request: &str) -> (r: Result<Request, HttpError>)
        ensures
            match r {
                Ok(req) => request_well_formed(request@) && req.method == method_spec(request@)
                    && req.path@ == path_spec(request@) && req.headers@ == headers_spec(request@)
                    && req.body@ == body_spec(request@),
                Err(e) => !request_well_formed(request@) && e == HttpError::MalformedRequest,
            },
    {
        match Request::get_path(request) {
            Some(path) => Ok(
                Request {
                    method: Request::get_method(request),
                    path,
                    headers: Request::get_headers(request),
                    body: Request::get_body(request),
                },
            ),
            None => Err(HttpError::MalformedRequest),
        }
    }
}

} // verus!

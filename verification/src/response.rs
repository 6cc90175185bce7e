//! Raw HTTP/1.1 response construction: a status line, optional
//! headers, a blank line, then the body verbatim, every line ended by
//! CRLF and nothing appended after the body.

use vstd::prelude::*;

verus! {

use crate::text::dec_str_spec;
use crate::text::u64_to_dec;
use vstd::string::StringExecFns;
use vstd::string::StrSliceExecFns;

/// A 200 response carrying `body`, framed by a `Content-Length` of `n`.
pub open spec fn ok_response_spec(body: Seq<char>, n: nat) -> Seq<char> {
    "HTTP/1.1 200 OK\r\nContent-Length: "@ + dec_str_spec(n) + "\r\n\r\n"@ + body
}

/// Like `ok_response_spec`, with a `text/plain` content type.
pub open spec fn text_response_spec(body: Seq<char>, n: nat) -> Seq<char> {
    "HTTP/1.1 200 OK\r\nContent-Type: text/plain\r\nContent-Length: "@ + dec_str_spec(n)
        + "\r\n\r\n"@ + body
}

/// The built-in not-found response: a 404 status line, no headers and
/// an empty body.
pub open spec fn not_found_response_spec() -> Seq<char> {
    "HTTP/1.1 404 Not Found\r\n\r\n"@
}

/// A 200 response whose `Content-Length` is the character length of
/// `body` and whose final bytes are `body` itself, directly after the
/// blank line.
pub fn ok_response(body: &str) -> (r: String)
    ensures
        r@ == ok_response_spec(body@, body@.len() as nat),
{
    let n = body.unicode_len();
    let mut r = String::from_str("HTTP/1.1 200 OK\r\nContent-Length: ");
    let dec = u64_to_dec(n as u64);
    r.append(dec.as_str());
    r.append("\r\n\r\n");
    r.append(body);
    proof {
        assert(r@ =~= ok_response_spec(body@, body@.len() as nat));
    }
    r
}

/// As `ok_response`, with a `Content-Type: text/plain` header.
pub fn text_response(body: &str) -> (r: String)
    ensures
        r@ == text_response_spec(body@, body@.len() as nat),
{
    let n = body.unicode_len();
    let mut r = String::from_str("HTTP/1.1 200 OK\r\nContent-Type: text/plain\r\nContent-Length: ");
    let dec = u64_to_dec(n as u64);
    r.append(dec.as_str());
    r.append("\r\n\r\n");
    r.append(body);
    proof {
        assert(r@ =~= text_response_spec(body@, body@.len() as nat));
    }
    r
}

/// Round trip: a built 200 response parses back to its body.  The
/// first blank line of the response is the one the builder wrote at
/// the end of the headers — the status line holds no second carriage
/// return and a rendered length holds none at all — so the request
/// parser's body extraction returns the body verbatim.
pub proof fn lemma_response_round_trip(body: Seq<char>, n: nat)
    ensures
        crate::request::body_spec(ok_response_spec(body, n)) == body,
{
    let l = "HTTP/1.1 200 OK\r\nContent-Length: "@;
    let d = dec_str_spec(n);
    let c = "\r\n\r\n"@;
    let r = ok_response_spec(body, n);
    let m = (l.len() + d.len()) as int;
    reveal_strlit("HTTP/1.1 200 OK\r\nContent-Length: ");
    reveal_strlit("\r\n\r\n");
    crate::text::lemma_dec_str_digits(n);
    assert(d.len() >= 1) by {
        if n >= 10 {
            assert(d == dec_str_spec(n / 10).push(crate::text::digit_char_spec(n % 10)));
        }
    }
    assert(l.len() == 33);
    assert(crate::request::body_sep_at(r, m)) by {
        assert(r[m] == c[0] && r[m + 1] == c[1] && r[m + 2] == c[2] && r[m + 3] == c[3]);
    }
    assert forall|j: int| 0 <= j < m implies !crate::request::body_sep_at(r, j) by {
        if j < 33 {
            if j == 15 {
                assert(r[17] == l[17]);
                assert(l[17] != '\r');
            } else {
                assert(r[j] == l[j]);
                assert(l[j] != '\r');
            }
        } else {
            assert(r[j] == d[j - 33]);
            assert(d[j - 33] != '\r');
        }
    }
    crate::request::lemma_find_body_sep(r, 0);
    match crate::request::find_body_sep(r, 0) {
        Some(k) => {
            if k < m {
                assert(false);
            }
            if k > m {
                assert(!crate::request::body_sep_at(r, m));
                assert(false);
            }
        },
        None => {
            assert(!crate::request::body_sep_at(r, m));
            assert(false);
        },
    }
    assert(r.skip(m + 4) =~= body);
}

pub fn not_found_response() -> (r: String)
    ensures
        r@ == not_found_response_spec(),
{
    String::from_str("HTTP/1.1 404 Not Found\r\n\r\n")
}

} // verus!

//! HTTP responses and their encoding for the wire.

use crate::string_map::{distinct_names, StringMap};
use crate::text::{decimal, push_decimal};
use vstd::prelude::*;
use vstd::string::*;
use vstd::utf8::*;

verus! {

/// A response: status line, headers and an optional body.
#[derive(Debug)]
pub struct HttpResponse {
    pub status: u16,
    pub reason: String,
    pub headers: StringMap,
    pub body: Option<String>,
}

/// What a response holds, as plain mathematical values. The headers are in the
/// order in which they are written.
pub struct ResponseView {
    pub status: u16,
    pub reason: Seq<char>,
    pub headers: Seq<(Seq<char>, Seq<char>)>,
    pub body: Option<Seq<char>>,
}

impl View for HttpResponse {
    type V = ResponseView;

    open spec fn view(&self) -> ResponseView {
        ResponseView {
            status: self.status,
            reason: self.reason@,
            headers: self.headers.entries(),
            body: match self.body {
                Some(b) => Some(b@),
                None => None,
            },
        }
    }
}

/// The header lines for `headers`: `name: value` and a line end for each pair,
/// in order.
pub open spec fn header_lines(headers: Seq<(Seq<char>, Seq<char>)>) -> Seq<char>
    decreases headers.len(),
{
    if headers.len() == 0 {
        Seq::empty()
    } else {
        header_lines(headers.drop_last()) + headers.last().0 + ": "@ + headers.last().1 + "\r\n"@
    }
}

/// The status line of a response, with its line end.
pub open spec fn status_line(status: u16, reason: Seq<char>) -> Seq<char> {
    "HTTP/1.1 "@ + decimal(status as nat) + " "@ + reason + "\r\n"@
}

/// The text of a response on the wire: status line, header lines, an empty
/// line, and the body if there is one.
pub open spec fn wire_text(response: ResponseView) -> Seq<char> {
    status_line(response.status, response.reason) + header_lines(response.headers) + "\r\n"@
        + match response.body {
        Some(body) => body,
        None => Seq::empty(),
    }
}

impl Default for HttpResponse {
    /// The response `200 OK` with the body `OK` and no headers.
    fn default() -> (r: Self)
        ensures
            r@ == (ResponseView {
                status: 200,
                reason: "OK"@,
                headers: Seq::empty(),
                body: Some("OK"@),
            }),
    {
        HttpResponse {
            status: 200,
            reason: "OK".to_owned(),
            headers: StringMap::new(),
            body: Some("OK".to_owned()),
        }
    }
}

impl HttpResponse {
    /// The response as the text that goes on the wire. No header is added to
    /// those that the response holds, and none is written twice.
    pub fn as_string(&self) -> (s: String)
        ensures
            s@ == wire_text(self@),
            distinct_names(self@.headers),
    {
        let mut s = String::new();
        s.append("HTTP/1.1 ");
        push_decimal(&mut s, self.status);
        s.append(" ");
        s.append(self.reason.as_str());
        s.append("\r\n");
        assert(s@ == status_line(self.status, self.reason@));
        let n = self.headers.len();
        let mut i: usize = 0;
        assert(self@.headers.take(0) == Seq::<(Seq<char>, Seq<char>)>::empty());
        while i < n
            invariant
                i <= n,
                n == self@.headers.len(),
                s@ == status_line(self.status, self.reason@) + header_lines(
                    self@.headers.take(i as int),
                ),
            decreases n - i,
        {
            proof {
                let next = self@.headers.take(i + 1);
                assert(next.drop_last() == self@.headers.take(i as int));
                assert(next.last() == self@.headers[i as int]);
            }
            s.append(self.headers.name_at(i));
            s.append(": ");
            s.append(self.headers.value_at(i));
            s.append("\r\n");
            i += 1;
        }
        assert(self@.headers.take(n as int) == self@.headers);
        s.append("\r\n");
        match &self.body {
            Some(body) => {
                s.append(body.as_str());
            },
            None => {
                assert(s@ + Seq::<char>::empty() == s@);
            },
        }
        s
    }

    /// The response as the bytes that go on the wire: its text in UTF-8.
    pub fn to_bytes(&self) -> (bytes: Vec<u8>)
        ensures
            bytes@ == encode_utf8(wire_text(self@)),
    {
        let s = self.as_string();
        s.as_str().as_bytes_vec()
    }

    /// A short description of the response: its status and reason.
    pub fn to_string(&self) -> (s: String)
        ensures
            s@ == "HttpResponse("@ + decimal(self.status as nat) + " "@ + self.reason@ + ")"@,
    {
        let mut s = String::new();
        s.append("HttpResponse(");
        push_decimal(&mut s, self.status);
        s.append(" ");
        s.append(self.reason.as_str());
        s.append(")");
        s
    }
}

} // verus!

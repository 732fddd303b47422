//! Decoding of HTTP requests from the bytes of a connection.

use crate::string_map::{entries_map, lemma_entries_map_source, StringMap};
use crate::text::{
    chars_of, drop_trailing, is_piece_of, is_trimmed, leading_span, lemma_case_mapping,
    lemma_lower_keeps_trimmed, lemma_piece_of_piece, lemma_span_until, lemma_trim, lossy_text,
    debug_text, lower, lowercase, parse_decimal, parse_usize, quoted, skip_trailing, span_until,
    split_token,
    strict_text, string_of, text_of, tokens, trim, trimmed, upper, uppercase_is, CharClass,
};
use vstd::prelude::*;
use vstd::slice::slice_subrange;
use vstd::string::*;
use vstd::utf8::*;

verus! {

/// The request methods that the decoder knows.
#[derive(Debug, Clone, Copy, PartialEq, Eq, Structural)]
pub enum HttpMethod {
    Get,
    Post,
    Put,
    Delete,
    Purge,
}

/// Why a request could not be decoded.
#[derive(Debug, Clone, Copy, PartialEq, Eq, Structural)]
pub enum DecodeError {
    /// The connection ended before it sent a single byte.
    EmptyRequest,
    /// The request line does not consist of exactly three words.
    MalformedRequestLine,
    /// The first word of the request line names no known method.
    UnknownMethod,
    /// The connection ended before the announced body was complete.
    TruncatedBody,
    /// The request line or a header line is not valid UTF-8.
    InvalidUtf8,
}

impl DecodeError {
    /// A short description of the error.
    pub fn message(&self) -> (s: &'static str)
        ensures
            s@ == match *self {
                DecodeError::EmptyRequest => "empty request"@,
                DecodeError::MalformedRequestLine => "badly formatted request line"@,
                DecodeError::UnknownMethod => "unknown http method"@,
                DecodeError::TruncatedBody => "truncated request body"@,
                DecodeError::InvalidUtf8 => "stream did not contain valid UTF-8"@,
            },
    {
        match self {
            DecodeError::EmptyRequest => "empty request",
            DecodeError::MalformedRequestLine => "badly formatted request line",
            DecodeError::UnknownMethod => "unknown http method",
            DecodeError::TruncatedBody => "truncated request body",
            DecodeError::InvalidUtf8 => "stream did not contain valid UTF-8",
        }
    }
}

/// The method that `token` names, whatever the case of its ASCII letters.
pub open spec fn method_of(token: Seq<char>) -> Option<HttpMethod> {
    let name = upper(token);
    if name == "GET"@ {
        Some(HttpMethod::Get)
    } else if name == "POST"@ {
        Some(HttpMethod::Post)
    } else if name == "PUT"@ {
        Some(HttpMethod::Put)
    } else if name == "DELETE"@ {
        Some(HttpMethod::Delete)
    } else if name == "PURGE"@ {
        Some(HttpMethod::Purge)
    } else {
        None
    }
}

impl HttpMethod {
    /// The method's name as it is written on the wire.
    pub open spec fn name(self) -> Seq<char> {
        match self {
            HttpMethod::Get => "GET"@,
            HttpMethod::Post => "POST"@,
            HttpMethod::Put => "PUT"@,
            HttpMethod::Delete => "DELETE"@,
            HttpMethod::Purge => "PURGE"@,
        }
    }

    /// The method's name as it is written on the wire.
    pub fn as_str(&self) -> (s: &'static str)
        ensures
            s@ == self.name(),
    {
        match self {
            HttpMethod::Get => "GET",
            HttpMethod::Post => "POST",
            HttpMethod::Put => "PUT",
            HttpMethod::Delete => "DELETE",
            HttpMethod::Purge => "PURGE",
        }
    }

    /// The method's name as an owned string.
    pub fn to_string(&self) -> (s: String)
        ensures
            s@ == self.name(),
    {
        self.as_str().to_owned()
    }

    /// The method that the characters `token` name.
    pub fn from_chars(token: &[char]) -> (r: Option<HttpMethod>)
        ensures
            r == method_of(token@),
    {
        if uppercase_is(token, "GET") {
            Some(HttpMethod::Get)
        } else if uppercase_is(token, "POST") {
            Some(HttpMethod::Post)
        } else if uppercase_is(token, "PUT") {
            Some(HttpMethod::Put)
        } else if uppercase_is(token, "DELETE") {
            Some(HttpMethod::Delete)
        } else if uppercase_is(token, "PURGE") {
            Some(HttpMethod::Purge)
        } else {
            None
        }
    }

    /// Reads a method name, ignoring the case of its letters.
    pub fn from_str(s: &str) -> (r: Result<HttpMethod, DecodeError>)
        ensures
            r == match method_of(s@) {
                Some(m) => Ok::<HttpMethod, DecodeError>(m),
                None => Err::<HttpMethod, DecodeError>(DecodeError::UnknownMethod),
            },
    {
        let chars = chars_of(s);
        match HttpMethod::from_chars(chars.as_slice()) {
            Some(m) => Ok(m),
            None => Err(DecodeError::UnknownMethod),
        }
    }
}

/// What a request line holds: the method, the URI and the protocol version,
/// where the line consists of exactly three whitespace-separated words and the
/// first names a method.
pub open spec fn request_line(line: Seq<char>) -> Result<
    (HttpMethod, Seq<char>, Seq<char>),
    DecodeError,
> {
    let words = tokens(line);
    if words.len() != 3 {
        Err(DecodeError::MalformedRequestLine)
    } else {
        match method_of(words[0]) {
            Some(m) => Ok((m, words[1], words[2])),
            None => Err(DecodeError::UnknownMethod),
        }
    }
}

/// Splits a request line into method, URI and protocol version.
pub fn extract_request_line(line: String) -> (r: Result<(HttpMethod, String, String), DecodeError>)
    ensures
        match r {
            Ok((m, uri, version)) => request_line(line@) == Ok::<
                (HttpMethod, Seq<char>, Seq<char>),
                DecodeError,
            >((m, uri@, version@)),
            Err(e) => request_line(line@) == Err::<(HttpMethod, Seq<char>, Seq<char>), DecodeError>(
                e,
            ),
        },
{
    let chars = chars_of(line.as_str());
    request_line_of(chars.as_slice())
}

/// Splits the characters of a request line into method, URI and protocol
/// version.
pub fn request_line_of(chars: &[char]) -> (r: Result<(HttpMethod, String, String), DecodeError>)
    ensures
        match r {
            Ok((m, uri, version)) => request_line(chars@) == Ok::<
                (HttpMethod, Seq<char>, Seq<char>),
                DecodeError,
            >((m, uri@, version@)),
            Err(e) => request_line(chars@) == Err::<
                (HttpMethod, Seq<char>, Seq<char>),
                DecodeError,
            >(e),
        },
{
    let (method, rest) = match split_token(chars) {
        Some(found) => found,
        None => {
            return Err(DecodeError::MalformedRequestLine);
        },
    };
    let (uri, rest) = match split_token(rest) {
        Some(found) => found,
        None => {
            return Err(DecodeError::MalformedRequestLine);
        },
    };
    let (version, rest) = match split_token(rest) {
        Some(found) => found,
        None => {
            return Err(DecodeError::MalformedRequestLine);
        },
    };
    if split_token(rest).is_some() {
        return Err(DecodeError::MalformedRequestLine);
    }
    assert(tokens(chars@) =~= seq![method@, uri@, version@]);
    match HttpMethod::from_chars(method) {
        Some(m) => Ok((m, string_of(uri), string_of(version))),
        None => Err(DecodeError::UnknownMethod),
    }
}

/// The header that a line holds: the text before the first colon, trimmed and
/// in lower case, and the text after it, trimmed. `None` for a line without a
/// colon.
pub open spec fn header_of(line: Seq<char>) -> Option<(Seq<char>, Seq<char>)> {
    let i = span_until(line, CharClass::Only(':'));
    if i < line.len() {
        Some((lower(trim(line.take(i))), trim(line.skip(i + 1))))
    } else {
        None
    }
}

/// Splits the characters of a header line into name and value.
pub fn header_line_of(chars: &[char]) -> (r: Option<(String, String)>)
    ensures
        match r {
            Some((name, value)) => header_of(chars@) == Some((name@, value@)),
            None => header_of(chars@) is None,
        },
{
    let i = leading_span(chars, CharClass::Only(':'));
    if i < chars.len() {
        let name = trimmed(slice_subrange(chars, 0, i));
        let value = trimmed(slice_subrange(chars, i + 1, chars.len()));
        Some((lowercase(name), string_of(value)))
    } else {
        None
    }
}

/// A decoded request.
#[derive(Debug)]
pub struct HttpRequest {
    pub method: HttpMethod,
    pub uri: String,
    /// The headers, under their names in lower case.
    pub headers: StringMap,
    pub body: Option<String>,
}

/// What a request holds, as plain mathematical values.
pub struct RequestView {
    pub method: HttpMethod,
    pub uri: Seq<char>,
    pub headers: Map<Seq<char>, Seq<char>>,
    pub body: Option<Seq<char>>,
}

impl View for HttpRequest {
    type V = RequestView;

    open spec fn view(&self) -> RequestView {
        RequestView {
            method: self.method,
            uri: self.uri@,
            headers: self.headers@,
            body: match self.body {
                Some(b) => Some(b@),
                None => None,
            },
        }
    }
}

/// The position just behind the line that starts at `start`: behind the first
/// line feed at or after `start`, or the end of the input where there is none.
pub open spec fn line_end(input: Seq<u8>, start: int) -> int
    decreases input.len() - start,
{
    if start >= input.len() {
        input.len() as int
    } else if input[start] == 0x0A {
        start + 1
    } else {
        line_end(input, start + 1)
    }
}

/// The text of the line that starts at `start`, without the carriage returns
/// and line feeds at its end; `None` where the bytes of the line, line end
/// included, are not valid UTF-8.
pub open spec fn line_text(input: Seq<u8>, start: int) -> Option<Seq<char>> {
    let bytes = input.subrange(start, line_end(input, start));
    if valid_utf8(bytes) {
        Some(drop_trailing(decode_utf8(bytes), CharClass::LineBreak))
    } else {
        None
    }
}

/// What the first line of the input holds, read as a request line.
pub open spec fn first_line(input: Seq<u8>) -> Result<
    (HttpMethod, Seq<char>, Seq<char>),
    DecodeError,
> {
    match line_text(input, 0) {
        Some(line) => request_line(line),
        None => Err(DecodeError::InvalidUtf8),
    }
}

/// A line that starts inside the input ends behind its start, and inside the
/// input.
pub proof fn lemma_line_end(input: Seq<u8>, start: int)
    requires
        0 <= start <= input.len(),
    ensures
        start <= line_end(input, start) <= input.len(),
        start < input.len() ==> start < line_end(input, start),
    decreases input.len() - start,
{
    if start < input.len() && input[start] != 0x0A {
        lemma_line_end(input, start + 1);
    }
}

/// `headers` with the header that `line` holds, if it holds one.
pub open spec fn with_header(
    headers: Map<Seq<char>, Seq<char>>,
    line: Seq<char>,
) -> Map<Seq<char>, Seq<char>> {
    match header_of(line) {
        Some((name, value)) => headers.insert(name, value),
        None => headers,
    }
}

/// What reading the header lines of a request yields.
pub struct HeadScan {
    /// The headers that the lines hold.
    pub headers: Map<Seq<char>, Seq<char>>,
    /// The position behind the last line read: where the head is complete,
    /// the body starts here.
    pub body_start: int,
    /// Whether the empty line that ends the head was reached.
    pub complete: bool,
    /// Whether every line read was valid UTF-8.
    pub valid: bool,
}

/// The headers read from the lines that start at `start`, added to `headers`,
/// and the position at which the body starts.
///
/// Reading stops behind the first line that is empty once its line end is
/// stripped, behind the first line that is not valid UTF-8, or at the end of
/// the input. A line without a colon adds nothing; a header that occurs again
/// replaces the earlier one.
pub open spec fn scan_headers(
    input: Seq<u8>,
    start: int,
    headers: Map<Seq<char>, Seq<char>>,
) -> HeadScan
    decreases input.len() - start,
{
    if start < 0 || start >= input.len() {
        HeadScan { headers, body_start: input.len() as int, complete: false, valid: true }
    } else {
        let end = line_end(input, start);
        match line_text(input, start) {
            None => HeadScan { headers, body_start: end, complete: false, valid: false },
            Some(line) => if line.len() == 0 {
                HeadScan { headers, body_start: end, complete: true, valid: true }
            } else {
                proof {
                    lemma_line_end(input, start);
                }
                scan_headers(input, end, with_header(headers, line))
            },
        }
    }
}

/// The body starts behind the position from which the header lines are read,
/// and inside the input.
pub proof fn lemma_scan_headers_bounds(
    input: Seq<u8>,
    start: int,
    headers: Map<Seq<char>, Seq<char>>,
)
    requires
        0 <= start <= input.len(),
    ensures
        start <= scan_headers(input, start, headers).body_start <= input.len(),
    decreases input.len() - start,
{
    if start < input.len() {
        lemma_line_end(input, start);
        if let Some(line) = line_text(input, start) {
            if line.len() != 0 {
                lemma_scan_headers_bounds(input, line_end(input, start), with_header(headers, line));
            }
        }
    }
}

/// The body length that `headers` announce: the number under `content-length`
/// where that is a decimal number that fits in `usize`, and zero otherwise.
pub open spec fn content_length_of(headers: Map<Seq<char>, Seq<char>>) -> nat {
    if headers.contains_key("content-length"@) {
        match parse_decimal(headers["content-length"@]) {
            Some(n) => if n <= usize::MAX {
                n
            } else {
                0
            },
            None => 0,
        }
    } else {
        0
    }
}

/// The request that the bytes `input` hold, or the reason why they hold none.
///
/// The request line and the header lines must be valid UTF-8; the body is
/// decoded whatever its bytes are.
pub open spec fn decode_spec(input: Seq<u8>) -> Result<RequestView, DecodeError> {
    if input.len() == 0 {
        Err(DecodeError::EmptyRequest)
    } else {
        match first_line(input) {
            Err(e) => Err(e),
            Ok((method, uri, version)) => {
                let head = scan_headers(input, line_end(input, 0), Map::empty());
                let headers = head.headers;
                let body_start = head.body_start;
                let length = content_length_of(headers);
                if !head.valid {
                    Err(DecodeError::InvalidUtf8)
                } else if length == 0 {
                    Ok(RequestView { method, uri, headers, body: None })
                } else if input.len() - body_start < length {
                    Err(DecodeError::TruncatedBody)
                } else {
                    Ok(
                        RequestView {
                            method,
                            uri,
                            headers,
                            body: Some(text_of(input.subrange(body_start, body_start + length))),
                        },
                    )
                }
            },
        }
    }
}

/// Finds the position just behind the line that starts at `start`.
fn find_line_end(input: &[u8], start: usize) -> (end: usize)
    requires
        start <= input.len(),
    ensures
        end == line_end(input@, start as int),
        start <= end <= input.len(),
        start < input.len() ==> start < end,
{
    let mut i: usize = start;
    while i < input.len() && input[i] != 0x0A
        invariant
            start <= i <= input.len(),
            line_end(input@, start as int) == line_end(input@, i as int),
        decreases input.len() - i,
    {
        i += 1;
    }
    if i < input.len() {
        i + 1
    } else {
        i
    }
}

/// The characters of the line that lies between `start` and `end`, line end
/// included; `None` where its bytes are not valid UTF-8.
fn line_chars(input: &[u8], start: usize, end: usize) -> (chars: Option<Vec<char>>)
    requires
        start <= end <= input.len(),
    ensures
        match chars {
            Some(c) => valid_utf8(input@.subrange(start as int, end as int)) && c@ == decode_utf8(
                input@.subrange(start as int, end as int),
            ),
            None => !valid_utf8(input@.subrange(start as int, end as int)),
        },
{
    match strict_text(slice_subrange(input, start, end)) {
        Some(text) => Some(chars_of(text.as_str())),
        None => None,
    }
}

/// Reads the request line at the start of the input, which ends at `end`.
fn read_first_line(input: &[u8], end: usize) -> (r: Result<
    (HttpMethod, String, String),
    DecodeError,
>)
    requires
        end == line_end(input@, 0),
        end <= input.len(),
    ensures
        match r {
            Ok((m, uri, version)) => first_line(input@) == Ok::<
                (HttpMethod, Seq<char>, Seq<char>),
                DecodeError,
            >((m, uri@, version@)),
            Err(e) => first_line(input@) == Err::<(HttpMethod, Seq<char>, Seq<char>), DecodeError>(
                e,
            ),
        },
{
    match line_chars(input, 0, end) {
        Some(chars) => request_line_of(skip_trailing(chars.as_slice(), CharClass::LineBreak)),
        None => Err(DecodeError::InvalidUtf8),
    }
}

/// Reads the header lines that start at `start`: the headers, the position
/// behind the last line read, whether the head is complete, and whether its
/// lines were valid UTF-8.
fn read_head(input: &[u8], start: usize) -> (r: (StringMap, usize, bool, bool))
    requires
        start <= input.len(),
    ensures
        scan_headers(input@, start as int, Map::empty()) == (HeadScan {
            headers: r.0@,
            body_start: r.1 as int,
            complete: r.2,
            valid: r.3,
        }),
        start <= r.1 <= input.len(),
{
    let mut headers = StringMap::new();
    let mut pos: usize = start;
    let mut complete = false;
    let mut valid = true;
    while valid && !complete && pos < input.len()
        invariant
            start <= pos <= input.len(),
            valid && !complete ==> scan_headers(input@, start as int, Map::empty())
                == scan_headers(input@, pos as int, headers@),
            !valid || complete ==> scan_headers(input@, start as int, Map::empty()) == (HeadScan {
                headers: headers@,
                body_start: pos as int,
                complete,
                valid,
            }),
        decreases input.len() - pos,
    {
        let end = find_line_end(input, pos);
        match line_chars(input, pos, end) {
            None => {
                valid = false;
            },
            Some(raw) => {
                let line = skip_trailing(raw.as_slice(), CharClass::LineBreak);
                if line.len() == 0 {
                    complete = true;
                } else {
                    match header_line_of(line) {
                        Some((name, value)) => {
                            headers.insert(name, value);
                        },
                        None => {},
                    }
                }
            },
        }
        pos = end;
    }
    (headers, pos, complete, valid)
}

/// Reads the body length that the headers announce.
pub fn content_length(headers: &StringMap) -> (n: usize)
    ensures
        n == content_length_of(headers@),
{
    match headers.get("content-length") {
        Some(value) => {
            let chars = chars_of(value);
            match parse_usize(chars.as_slice()) {
                Some(n) => n,
                None => 0,
            }
        },
        None => 0,
    }
}

impl HttpRequest {
    /// Decodes the request that a connection sent, from all the bytes that it
    /// sent.
    pub fn decode(input: &[u8]) -> (r: Result<HttpRequest, DecodeError>)
        ensures
            match r {
                Ok(request) => decode_spec(input@) == Ok::<RequestView, DecodeError>(request@),
                Err(e) => decode_spec(input@) == Err::<RequestView, DecodeError>(e),
            },
    {
        if input.len() == 0 {
            return Err(DecodeError::EmptyRequest);
        }
        let first_end = find_line_end(input, 0);
        let (method, uri, _version) = match read_first_line(input, first_end) {
            Ok(parts) => parts,
            Err(e) => {
                return Err(e);
            },
        };
        let (headers, pos, _complete, valid) = read_head(input, first_end);
        let length = content_length(&headers);
        if !valid {
            Err(DecodeError::InvalidUtf8)
        } else if length == 0 {
            Ok(HttpRequest { method, uri, headers, body: None })
        } else if input.len() - pos < length {
            Err(DecodeError::TruncatedBody)
        } else {
            let body = lossy_text(slice_subrange(input, pos, pos + length));
            Ok(HttpRequest { method, uri, headers, body: Some(body) })
        }
    }
}

/// The path of a URI: what precedes its first `?`. A URI without `?` is its
/// own path, and the path of the empty URI is `/`.
pub open spec fn path_of(uri: Seq<char>) -> Seq<char> {
    let i = span_until(uri, CharClass::Only('?'));
    if i < uri.len() {
        uri.take(i)
    } else if uri.len() == 0 {
        "/"@
    } else {
        uri
    }
}

/// The query string of a URI: what follows its first `?`; `None` where it has
/// none.
pub open spec fn query_str_of(uri: Seq<char>) -> Option<Seq<char>> {
    let i = span_until(uri, CharClass::Only('?'));
    if i < uri.len() {
        Some(uri.skip(i + 1))
    } else {
        None
    }
}

/// The key and the value of one segment of a query string: the segment is
/// split at its first `=`; without one, the whole segment is the key and the
/// value is empty.
pub open spec fn query_pair(segment: Seq<char>) -> (Seq<char>, Seq<char>) {
    let i = span_until(segment, CharClass::Only('='));
    if i < segment.len() {
        (segment.take(i), segment.skip(i + 1))
    } else {
        (segment, Seq::empty())
    }
}

/// The pairs of a query string, in order: one for each non-empty segment
/// between `&` characters.
pub open spec fn query_pairs(query: Seq<char>) -> Seq<(Seq<char>, Seq<char>)>
    decreases query.len(),
{
    let i = span_until(query, CharClass::Only('&'));
    let first = if i == 0 {
        Seq::empty()
    } else {
        seq![query_pair(query.take(i))]
    };
    if 0 <= i < query.len() {
        first + query_pairs(query.skip(i + 1))
    } else {
        first
    }
}

/// The parameters of a URI: the pairs of its query string as a map, in which a
/// later pair overrides an earlier one with the same key. Empty for a URI
/// without a query string.
pub open spec fn query_of(uri: Seq<char>) -> Map<Seq<char>, Seq<char>> {
    match query_str_of(uri) {
        Some(query) => entries_map(query_pairs(query)),
        None => Map::empty(),
    }
}

/// Splits one segment of a query string into key and value.
fn query_pair_of(segment: &[char]) -> (r: (String, String))
    ensures
        (r.0@, r.1@) == query_pair(segment@),
{
    let i = leading_span(segment, CharClass::Only('='));
    if i < segment.len() {
        (
            string_of(slice_subrange(segment, 0, i)),
            string_of(slice_subrange(segment, i + 1, segment.len())),
        )
    } else {
        (string_of(segment), String::new())
    }
}

impl HttpRequest {
    /// The path of the request: the URI up to its first `?`, all of it where
    /// it has none, and `/` for the empty URI.
    pub fn path(&self) -> (path: &str)
        ensures
            path@ == path_of(self.uri@),
    {
        let chars = chars_of(self.uri.as_str());
        let i = leading_span(chars.as_slice(), CharClass::Only('?'));
        if i < chars.len() {
            self.uri.as_str().substring_char(0, i)
        } else if chars.len() == 0 {
            "/"
        } else {
            self.uri.as_str()
        }
    }

    /// The query string of the request: the URI behind its first `?`.
    pub fn query_str(&self) -> (query: Option<&str>)
        ensures
            match query {
                Some(q) => query_str_of(self.uri@) == Some(q@),
                None => query_str_of(self.uri@) is None,
            },
    {
        let chars = chars_of(self.uri.as_str());
        let i = leading_span(chars.as_slice(), CharClass::Only('?'));
        if i < chars.len() {
            let q = self.uri.as_str().substring_char(i + 1, chars.len());
            assert(q@ == self.uri@.skip(i + 1));
            Some(q)
        } else {
            None
        }
    }

    /// The parameters of the request, parsed from its query string.
    pub fn query(&self) -> (params: StringMap)
        ensures
            params@ == query_of(self.uri@),
    {
        let mut params = StringMap::new();
        let chars = chars_of(self.uri.as_str());
        let start = leading_span(chars.as_slice(), CharClass::Only('?'));
        if start == chars.len() {
            return params;
        }
        let mut rest: &[char] = slice_subrange(chars.as_slice(), start + 1, chars.len());
        let ghost mut seen: Seq<(Seq<char>, Seq<char>)> = Seq::empty();
        let mut more = true;
        assert(seen + query_pairs(rest@) == query_pairs(rest@));
        while more
            invariant
                params@ == entries_map(seen),
                more ==> entries_map(seen + query_pairs(rest@)) == query_of(self.uri@),
                !more ==> entries_map(seen) == query_of(self.uri@),
            decreases rest@.len(), (if more { 1int } else { 0int }),
        {
            let i = leading_span(rest, CharClass::Only('&'));
            let ghost pairs = query_pairs(rest@);
            if i > 0 {
                let (key, value) = query_pair_of(slice_subrange(rest, 0, i));
                proof {
                    let next = seen.push((key@, value@));
                    assert(next.drop_last() == seen);
                    if i < rest@.len() {
                        assert(seen + pairs == next + query_pairs(rest@.skip(i + 1)));
                    } else {
                        assert(seen + pairs == next);
                    }
                    seen = next;
                }
                params.insert(key, value);
            }
            if i < rest.len() {
                rest = slice_subrange(rest, i + 1, rest.len());
            } else {
                proof {
                    if i == 0 {
                        assert(seen + pairs == seen);
                    }
                }
                more = false;
            }
        }
        params
    }
}

/// What to read next from a connection, given the bytes read so far.
#[derive(Debug, Clone, Copy, PartialEq, Eq, Structural)]
pub enum ReadStep {
    /// One more line, up to and including its line feed.
    Line,
    /// This many more bytes of the body.
    Body(usize),
    /// Nothing: the request is complete, or cannot be decoded.
    Done,
}

/// What `next_read` answers for the bytes `input`.
///
/// Lines are read until the head is complete; then the bytes that the
/// announced body still lacks. Nothing more is read behind a request line that
/// cannot be decoded, nor behind a header line that is not valid UTF-8.
pub open spec fn next_read_spec(input: Seq<u8>) -> ReadStep {
    if input.len() == 0 {
        ReadStep::Line
    } else if first_line(input) is Err {
        ReadStep::Done
    } else {
        let head = scan_headers(input, line_end(input, 0), Map::empty());
        let announced = content_length_of(head.headers);
        let available = input.len() - head.body_start;
        if !head.valid {
            ReadStep::Done
        } else if !head.complete {
            ReadStep::Line
        } else if available < announced {
            ReadStep::Body((announced - available) as usize)
        } else {
            ReadStep::Done
        }
    }
}

/// Tells a reader what to read next from a connection that has sent `input` so
/// far. Once it answers `Done`, or the connection ends, `decode` is handed
/// what was read.
pub fn next_read(input: &[u8]) -> (step: ReadStep)
    ensures
        step == next_read_spec(input@),
{
    if input.len() == 0 {
        return ReadStep::Line;
    }
    let first_end = find_line_end(input, 0);
    if read_first_line(input, first_end).is_err() {
        return ReadStep::Done;
    }
    let (headers, body_start, complete, valid) = read_head(input, first_end);
    let announced = content_length(&headers);
    let available = input.len() - body_start;
    if !valid {
        ReadStep::Done
    } else if !complete {
        ReadStep::Line
    } else if available < announced {
        ReadStep::Body(announced - available)
    } else {
        ReadStep::Done
    }
}

/// Changing the case of ASCII letters in a method name does not change the
/// method that it names.
pub proof fn lemma_method_ignores_case(token: Seq<char>)
    ensures
        method_of(lower(token)) == method_of(token),
        method_of(upper(token)) == method_of(token),
{
    lemma_case_mapping(token);
}

/// Two request lines that differ only in the case of the ASCII letters of the
/// method decode alike.
pub proof fn lemma_request_line_ignores_method_case(a: Seq<char>, b: Seq<char>)
    requires
        tokens(a).len() == tokens(b).len(),
        tokens(a).len() == 3 ==> {
            &&& upper(tokens(a)[0]) == upper(tokens(b)[0])
            &&& tokens(a)[1] == tokens(b)[1]
            &&& tokens(a)[2] == tokens(b)[2]
        },
    ensures
        request_line(a) == request_line(b),
{
}

/// A request whose head announces more body bytes than follow it is refused as
/// truncated, and for no other reason is a request so refused. A body that is
/// decoded is the text of exactly as many bytes as were announced.
pub proof fn lemma_body_is_whole_or_refused(input: Seq<u8>)
    requires
        input.len() > 0,
        first_line(input) is Ok,
        scan_headers(input, line_end(input, 0), Map::empty()).valid,
    ensures
        ({
            let head = scan_headers(input, line_end(input, 0), Map::empty());
            let announced = content_length_of(head.headers);
            let available = input.len() - head.body_start;
            &&& 0 <= available <= input.len()
            &&& available < announced <==> decode_spec(input) == Err::<RequestView, DecodeError>(
                DecodeError::TruncatedBody,
            )
            &&& available >= announced ==> decode_spec(input) is Ok
            &&& decode_spec(input) matches Ok(request) ==> request.body == if announced == 0 {
                None
            } else {
                Some(text_of(input.subrange(head.body_start, head.body_start + announced)))
            }
        }),
{
    lemma_line_end(input, 0);
    lemma_scan_headers_bounds(input, line_end(input, 0), Map::empty());
}

/// Whether every name of `headers` is in lower case.
pub open spec fn names_in_lower_case(headers: Map<Seq<char>, Seq<char>>) -> bool {
    forall|name: Seq<char>| #[trigger] headers.contains_key(name) ==> lower(name) == name
}

/// Reading header lines keeps all names in lower case.
pub proof fn lemma_scanned_names_in_lower_case(
    input: Seq<u8>,
    start: int,
    headers: Map<Seq<char>, Seq<char>>,
)
    requires
        0 <= start <= input.len(),
        names_in_lower_case(headers),
    ensures
        names_in_lower_case(scan_headers(input, start, headers).headers),
    decreases input.len() - start,
{
    if start < input.len() {
        lemma_line_end(input, start);
        if let Some(line) = line_text(input, start) {
            if line.len() != 0 {
                if header_of(line) is Some {
                    lemma_case_mapping(trim(line.take(span_until(line, CharClass::Only(':')))));
                }
                lemma_scanned_names_in_lower_case(
                    input,
                    line_end(input, start),
                    with_header(headers, line),
                );
            }
        }
    }
}

/// The headers of a decoded request stand under names in lower case.
pub proof fn lemma_decoded_names_in_lower_case(input: Seq<u8>)
    ensures
        decode_spec(input) matches Ok(request) ==> names_in_lower_case(request.headers),
{
    if input.len() > 0 {
        lemma_line_end(input, 0);
        lemma_scanned_names_in_lower_case(input, line_end(input, 0), Map::empty());
    }
}

/// What `next_read` answers fits what `decode` makes of the same bytes. It asks
/// for body bytes exactly when `decode` would find the body truncated, and for
/// as many as are missing; when it asks for nothing, `decode` either yields a
/// request or fails on the request line or on a line that is not valid UTF-8.
pub proof fn lemma_next_read_fits_decode(input: Seq<u8>)
    ensures
        match next_read_spec(input) {
            ReadStep::Line => input.len() == 0 || !scan_headers(
                input,
                line_end(input, 0),
                Map::empty(),
            ).complete,
            ReadStep::Body(missing) => {
                let head = scan_headers(input, line_end(input, 0), Map::empty());
                &&& decode_spec(input) == Err::<RequestView, DecodeError>(
                    DecodeError::TruncatedBody,
                )
                &&& missing > 0
                &&& input.len() - head.body_start + missing == content_length_of(head.headers)
            },
            ReadStep::Done => {
                ||| decode_spec(input) is Ok
                ||| decode_spec(input) == Err::<RequestView, DecodeError>(
                    DecodeError::MalformedRequestLine,
                )
                ||| decode_spec(input) == Err::<RequestView, DecodeError>(
                    DecodeError::UnknownMethod,
                )
                ||| decode_spec(input) == Err::<RequestView, DecodeError>(
                    DecodeError::InvalidUtf8,
                )
            },
        },
{
    if input.len() > 0 {
        lemma_line_end(input, 0);
        lemma_scan_headers_bounds(input, line_end(input, 0), Map::empty());
    }
}

/// Whether the line that starts at `start` ends in a line feed, rather than
/// with the input.
pub open spec fn line_is_whole(input: Seq<u8>, start: int) -> bool {
    &&& start < line_end(input, start) <= input.len()
    &&& input[line_end(input, start) - 1] == 0x0A
}

/// A line that ends before the end of the input ends in a line feed.
pub proof fn lemma_line_before_end_is_whole(input: Seq<u8>, start: int)
    requires
        0 <= start < input.len(),
        line_end(input, start) < input.len(),
    ensures
        line_is_whole(input, start),
    decreases input.len() - start,
{
    if input[start] != 0x0A {
        if start + 1 < input.len() {
            lemma_line_before_end_is_whole(input, start + 1);
        } else {
            assert(line_end(input, start + 1) == input.len());
        }
    }
}

/// Bytes that follow a whole line change neither where it ends nor what it
/// says.
pub proof fn lemma_whole_line_is_final(input: Seq<u8>, more: Seq<u8>, start: int)
    requires
        0 <= start < input.len(),
        line_is_whole(input, start),
    ensures
        line_end(input + more, start) == line_end(input, start),
        line_text(input + more, start) == line_text(input, start),
    decreases input.len() - start,
{
    let longer = input + more;
    assert(longer[start] == input[start]);
    if input[start] != 0x0A {
        lemma_line_end(input, start + 1);
        lemma_whole_line_is_final(input, more, start + 1);
    }
    let end = line_end(input, start);
    assert(longer.subrange(start, end) == input.subrange(start, end));
}

/// Bytes that follow a head that was read to its end in whole lines change
/// neither its headers nor where reading stopped.
pub proof fn lemma_complete_head_is_final(
    input: Seq<u8>,
    more: Seq<u8>,
    start: int,
    headers: Map<Seq<char>, Seq<char>>,
)
    requires
        0 <= start <= input.len(),
        scan_headers(input, start, headers).complete || !scan_headers(input, start, headers).valid,
        input[scan_headers(input, start, headers).body_start - 1] == 0x0A,
    ensures
        scan_headers(input + more, start, headers) == scan_headers(input, start, headers),
    decreases input.len() - start,
{
    if start < input.len() {
        lemma_line_end(input, start);
        let end = line_end(input, start);
        match line_text(input, start) {
            None => {
                lemma_whole_line_is_final(input, more, start);
            },
            Some(line) => {
                if line.len() == 0 {
                    lemma_whole_line_is_final(input, more, start);
                } else {
                    let next = with_header(headers, line);
                    assert(scan_headers(input, start, headers) == scan_headers(input, end, next));
                    if end >= input.len() {
                        assert(scan_headers(input, end, next).valid);
                        assert(!scan_headers(input, end, next).complete);
                    }
                    lemma_line_before_end_is_whole(input, start);
                    lemma_whole_line_is_final(input, more, start);
                    lemma_complete_head_is_final(input, more, end, next);
                }
            },
        }
    }
}

/// Once `next_read` asks for nothing more, nothing that follows on the
/// connection changes what `decode` yields, provided that what was read ends
/// in a line feed where `next_read` asked for lines: at the end of a request
/// line that cannot be decoded, and at the end of the last line read of the
/// head otherwise.
pub proof fn lemma_done_is_final(input: Seq<u8>, more: Seq<u8>)
    requires
        next_read_spec(input) == ReadStep::Done,
        first_line(input) is Err ==> line_is_whole(input, 0),
        first_line(input) is Ok ==> input[scan_headers(
            input,
            line_end(input, 0),
            Map::empty(),
        ).body_start - 1] == 0x0A,
    ensures
        decode_spec(input + more) == decode_spec(input),
{
    let longer = input + more;
    lemma_line_end(input, 0);
    if first_line(input) is Err {
        lemma_whole_line_is_final(input, more, 0);
    } else {
        let first_end = line_end(input, 0);
        let head = scan_headers(input, first_end, Map::empty());
        lemma_scan_headers_bounds(input, first_end, Map::empty());
        assert(first_end < input.len());
        lemma_line_before_end_is_whole(input, 0);
        lemma_whole_line_is_final(input, more, 0);
        lemma_complete_head_is_final(input, more, first_end, Map::empty());
        let length = content_length_of(head.headers);
        if head.valid && length > 0 {
            assert(longer.subrange(head.body_start, head.body_start + length) == input.subrange(
                head.body_start,
                head.body_start + length,
            ));
        }
    }
}

/// The path holds no `?`. Where a URI has a query string, the path, a `?` and
/// the query string make up the URI; where it has none, it holds no `?`, and
/// unless it is empty it is its own path.
pub proof fn lemma_uri_parts(uri: Seq<char>)
    ensures
        forall|j: int| 0 <= j < path_of(uri).len() ==> #[trigger] path_of(uri)[j] != '?',
        match query_str_of(uri) {
            Some(query) => {
                &&& path_of(uri) + seq!['?'] + query == uri
                &&& path_of(uri).len() < uri.len()
                &&& uri[path_of(uri).len() as int] == '?'
            },
            None => {
                &&& forall|j: int| 0 <= j < uri.len() ==> #[trigger] uri[j] != '?'
                &&& uri.len() > 0 ==> path_of(uri) == uri
                &&& uri.len() == 0 ==> path_of(uri) == "/"@
            },
        },
{
    lemma_span_until(uri, CharClass::Only('?'));
    reveal_strlit("/");
    let i = span_until(uri, CharClass::Only('?'));
    assert forall|j: int| 0 <= j < uri.len() && j < i implies #[trigger] uri[j] != '?' by {
        assert(!CharClass::Only('?').has(uri[j]));
    }
    if i < uri.len() {
        assert(uri.take(i) + seq!['?'] + uri.skip(i + 1) =~= uri);
    }
}

/// The lines that list `headers` in a description of a request: for each pair,
/// in order, an indented line with the quoted name, a colon, the quoted value
/// and a comma.
pub open spec fn listed_headers(headers: Seq<(Seq<char>, Seq<char>)>) -> Seq<char>
    decreases headers.len(),
{
    if headers.len() == 0 {
        Seq::empty()
    } else {
        listed_headers(headers.drop_last()) + "    "@ + debug_text(headers.last().0) + ": "@
            + debug_text(headers.last().1) + ",\n"@
    }
}

/// The description of a request: method and URI in parentheses, then the
/// headers between braces, one to a line; `{}` where there are none.
pub open spec fn request_text(
    method: HttpMethod,
    uri: Seq<char>,
    headers: Seq<(Seq<char>, Seq<char>)>,
) -> Seq<char> {
    "HttpRequest("@ + method.name() + " "@ + uri + ") "@ + if headers.len() == 0 {
        "{}"@
    } else {
        "{\n"@ + listed_headers(headers) + "}"@
    }
}

impl HttpRequest {
    /// A description of the request for a log: its method, its URI and its
    /// headers, in the order in which they were first read.
    pub fn to_string(&self) -> (s: String)
        ensures
            s@ == request_text(self.method, self.uri@, self.headers.entries()),
    {
        let mut s = String::new();
        s.append("HttpRequest(");
        s.append(self.method.as_str());
        s.append(" ");
        s.append(self.uri.as_str());
        s.append(") ");
        let ghost start = s@;
        let ghost entries = self.headers.entries();
        let n = self.headers.len();
        if n == 0 {
            s.append("{}");
            return s;
        }
        s.append("{\n");
        let mut i: usize = 0;
        assert(entries.take(0) == Seq::<(Seq<char>, Seq<char>)>::empty());
        while i < n
            invariant
                i <= n,
                n == entries.len(),
                entries == self.headers.entries(),
                s@ == start + "{\n"@ + listed_headers(entries.take(i as int)),
            decreases n - i,
        {
            proof {
                let next = entries.take(i + 1);
                assert(next.drop_last() == entries.take(i as int));
                assert(next.last() == entries[i as int]);
            }
            let name = quoted(self.headers.name_at(i));
            let value = quoted(self.headers.value_at(i));
            s.append("    ");
            s.append(name.as_str());
            s.append(": ");
            s.append(value.as_str());
            s.append(",\n");
            i += 1;
        }
        assert(entries.take(n as int) == entries);
        s.append("}");
        s
    }
}

/// The name of a header is trimmed and in lower case, and its value is
/// trimmed.
pub proof fn lemma_header_is_trimmed(line: Seq<char>)
    ensures
        header_of(line) matches Some((name, value)) ==> {
            &&& is_trimmed(name)
            &&& lower(name) == name
            &&& is_trimmed(value)
            &&& is_piece_of(value, line)
        },
{
    let i = span_until(line, CharClass::Only(':'));
    lemma_span_until(line, CharClass::Only(':'));
    if i < line.len() {
        let before = line.take(i);
        let after = line.skip(i + 1);
        lemma_trim(before);
        lemma_trim(after);
        lemma_lower_keeps_trimmed(trim(before));
        lemma_case_mapping(trim(before));
        assert(is_piece_of(after, line)) by {
            assert(after == line.subrange(i + 1, line.len() as int));
        }
        lemma_piece_of_piece(trim(after), after, line);
    }
}

/// Whether every name and every value of `headers` is trimmed.
pub open spec fn all_trimmed(headers: Map<Seq<char>, Seq<char>>) -> bool {
    forall|name: Seq<char>| #[trigger]
        headers.contains_key(name) ==> is_trimmed(name) && is_trimmed(headers[name])
}

/// Reading header lines keeps all names and values trimmed.
pub proof fn lemma_scanned_headers_are_trimmed(
    input: Seq<u8>,
    start: int,
    headers: Map<Seq<char>, Seq<char>>,
)
    requires
        0 <= start <= input.len(),
        all_trimmed(headers),
    ensures
        all_trimmed(scan_headers(input, start, headers).headers),
    decreases input.len() - start,
{
    if start < input.len() {
        lemma_line_end(input, start);
        if let Some(line) = line_text(input, start) {
            if line.len() != 0 {
                lemma_header_is_trimmed(line);
                lemma_scanned_headers_are_trimmed(
                    input,
                    line_end(input, start),
                    with_header(headers, line),
                );
            }
        }
    }
}

/// The names and the values of the headers of a decoded request are trimmed.
pub proof fn lemma_decoded_headers_are_trimmed(input: Seq<u8>)
    ensures
        decode_spec(input) matches Ok(request) ==> all_trimmed(request.headers),
{
    if input.len() > 0 {
        lemma_line_end(input, 0);
        lemma_scanned_headers_are_trimmed(input, line_end(input, 0), Map::empty());
    }
}

/// The key and the value of every pair of a query string are pieces of it.
pub proof fn lemma_query_pairs_are_pieces(query: Seq<char>)
    ensures
        forall|k: int|
            0 <= k < query_pairs(query).len() ==> {
                &&& is_piece_of((#[trigger] query_pairs(query)[k]).0, query)
                &&& is_piece_of(query_pairs(query)[k].1, query)
            },
    decreases query.len(),
{
    let i = span_until(query, CharClass::Only('&'));
    lemma_span_until(query, CharClass::Only('&'));
    let segment = query.take(i);
    assert(is_piece_of(segment, query)) by {
        assert(segment == query.subrange(0, i));
    }
    if i > 0 {
        let j = span_until(segment, CharClass::Only('='));
        lemma_span_until(segment, CharClass::Only('='));
        let pair = query_pair(segment);
        assert(is_piece_of(pair.0, segment) && is_piece_of(pair.1, segment)) by {
            if j < segment.len() {
                assert(pair.0 == segment.subrange(0, j));
                assert(pair.1 == segment.subrange(j + 1, segment.len() as int));
            } else {
                assert(pair.0 == segment.subrange(0, segment.len() as int));
                assert(pair.1 == segment.subrange(0, 0));
            }
        }
        lemma_piece_of_piece(pair.0, segment, query);
        lemma_piece_of_piece(pair.1, segment, query);
    }
    let first = if i == 0 {
        Seq::<(Seq<char>, Seq<char>)>::empty()
    } else {
        seq![query_pair(segment)]
    };
    if i < query.len() {
        let rest = query.skip(i + 1);
        lemma_query_pairs_are_pieces(rest);
        assert(is_piece_of(rest, query)) by {
            assert(rest == query.subrange(i + 1, query.len() as int));
        }
        assert forall|k: int| 0 <= k < query_pairs(query).len() implies {
            &&& is_piece_of((#[trigger] query_pairs(query)[k]).0, query)
            &&& is_piece_of(query_pairs(query)[k].1, query)
        } by {
            if k >= first.len() {
                let pair = query_pairs(rest)[k - first.len()];
                assert(query_pairs(query)[k] == pair);
                lemma_piece_of_piece(pair.0, rest, query);
                lemma_piece_of_piece(pair.1, rest, query);
            }
        }
    }
}

/// Every key of the parameters of a URI, and its value, is a piece of the
/// URI: nothing is decoded or added.
pub proof fn lemma_query_is_made_of_the_uri(uri: Seq<char>, key: Seq<char>)
    requires
        query_of(uri).contains_key(key),
    ensures
        is_piece_of(key, uri),
        is_piece_of(query_of(uri)[key], uri),
{
    let i = span_until(uri, CharClass::Only('?'));
    lemma_span_until(uri, CharClass::Only('?'));
    let query = uri.skip(i + 1);
    assert(is_piece_of(query, uri)) by {
        assert(query == uri.subrange(i + 1, uri.len() as int));
    }
    let pairs = query_pairs(query);
    lemma_entries_map_source(pairs, key);
    let k = choose|k: int|
        0 <= k < pairs.len() && #[trigger] pairs[k] == (key, entries_map(pairs)[key]);
    lemma_query_pairs_are_pieces(query);
    lemma_piece_of_piece(pairs[k].0, query, uri);
    lemma_piece_of_piece(pairs[k].1, query, uri);
}

} // verus!

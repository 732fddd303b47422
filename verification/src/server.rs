//! What a worker does with one connection, and what the acceptor does with one
//! attempt to accept: routing, the reply to a request, and the hand-over of
//! connections to the pool.

use crate::http_request::{
    decode_spec, path_of, DecodeError, HttpMethod, HttpRequest, RequestView,
};
use crate::http_response::{status_line, wire_text, HttpResponse, ResponseView};
use crate::string_map::StringMap;
use crate::text::{all_digits, decimal, same_text};
use crate::thread_pool::{PoolError, PoolView, ThreadPool};
use vstd::prelude::*;
use vstd::string::*;
use vstd::utf8::*;

verus! {

/// The response to a request that was routed nowhere: `404 Not Found`, without
/// headers and without a body.
pub open spec fn not_found_view() -> ResponseView {
    ResponseView { status: 404, reason: "Not Found"@, headers: Seq::empty(), body: None }
}

/// The response to a request that could not be decoded: `400 Bad request`,
/// without headers and without a body.
pub open spec fn bad_request_view() -> ResponseView {
    ResponseView { status: 400, reason: "Bad request"@, headers: Seq::empty(), body: None }
}

/// The response `200 OK` with the body `OK`.
pub open spec fn ok_view() -> ResponseView {
    ResponseView { status: 200, reason: "OK"@, headers: Seq::empty(), body: Some("OK"@) }
}

/// The routing table: `GET /sleep` is answered with `200 OK`, anything else
/// with `404 Not Found`.
pub open spec fn route_spec(method: HttpMethod, path: Seq<char>) -> ResponseView {
    if method == HttpMethod::Get && path == "/sleep"@ {
        ok_view()
    } else {
        not_found_view()
    }
}

/// The response to the outcome of decoding a request.
pub open spec fn answer_spec(decoded: Result<RequestView, DecodeError>) -> ResponseView {
    match decoded {
        Ok(request) => route_spec(request.method, path_of(request.uri)),
        Err(_) => bad_request_view(),
    }
}

/// The response to the bytes that a connection sent: that of the routing
/// table for a request that decodes, `400 Bad request` for one that does not.
pub open spec fn response_for(input: Seq<u8>) -> ResponseView {
    answer_spec(decode_spec(input))
}

/// The response `404 Not Found`. It has no body.
pub fn not_found() -> (r: HttpResponse)
    ensures
        r@ == not_found_view(),
{
    HttpResponse {
        status: 404,
        reason: "Not Found".to_owned(),
        headers: StringMap::new(),
        body: None,
    }
}

/// The response `400 Bad request`. It has no body.
pub fn bad_request() -> (r: HttpResponse)
    ensures
        r@ == bad_request_view(),
{
    HttpResponse {
        status: 400,
        reason: "Bad request".to_owned(),
        headers: StringMap::new(),
        body: None,
    }
}

/// Picks the response for a method and a path.
pub fn route(method: HttpMethod, path: &str) -> (r: HttpResponse)
    ensures
        r@ == route_spec(method, path@),
{
    match method {
        HttpMethod::Get => {
            if same_text(path, "/sleep") {
                HttpResponse::default()
            } else {
                not_found()
            }
        },
        _ => not_found(),
    }
}

/// Picks the response to the outcome of decoding a request: the routing table
/// decides for a request, and a failure is answered with `400 Bad request`.
pub fn answer(decoded: &Result<HttpRequest, DecodeError>) -> (r: HttpResponse)
    ensures
        r@ == answer_spec(
            match *decoded {
                Ok(request) => Ok(request@),
                Err(e) => Err(e),
            },
        ),
{
    match decoded {
        Ok(request) => route(request.method, request.path()),
        Err(_) => bad_request(),
    }
}

/// Decodes the request in `input` and picks the response to it.
pub fn respond(input: &[u8]) -> (r: HttpResponse)
    ensures
        r@ == response_for(input@),
{
    let decoded = HttpRequest::decode(input);
    answer(&decoded)
}

/// The bytes to write back to a connection that sent `input`.
pub fn reply(input: &[u8]) -> (bytes: Vec<u8>)
    ensures
        bytes@ == encode_utf8(wire_text(response_for(input@))),
{
    respond(input).to_bytes()
}

/// The reply to a connection is a function of the bytes it sent, and it opens
/// with a status line that holds a status of three decimal digits: 200, 404 or
/// 400.
pub proof fn lemma_reply_has_numeric_status(input: Seq<u8>)
    ensures
        ({
            let response = response_for(input);
            let digits = decimal(response.status as nat);
            let text = wire_text(response);
            &&& response.status == 200 || response.status == 404 || response.status == 400
            &&& decode_spec(input) is Ok ==> response.status != 400
            &&& digits.len() == 3
            &&& all_digits(digits)
            &&& text.len() >= 13
            &&& text.subrange(0, 9) == "HTTP/1.1 "@
            &&& text.subrange(9, 12) == digits
            &&& text[12] == ' '
        }),
{
    let response = response_for(input);
    let digits = decimal(response.status as nat);
    reveal_with_fuel(decimal, 3);
    reveal_strlit("HTTP/1.1 ");
    reveal_strlit(" ");
    assert(digits.len() == 3);
    let line = status_line(response.status, response.reason);
    let head = "HTTP/1.1 "@ + digits + " "@;
    assert(head.len() == 13);
    assert(wire_text(response).subrange(0, 13) == head);
    assert(wire_text(response).subrange(0, 9) == head.subrange(0, 9));
    assert(wire_text(response).subrange(9, 12) == head.subrange(9, 12));
    assert(head.subrange(0, 9) == "HTTP/1.1 "@);
    assert(head.subrange(9, 12) == digits);
}

/// The three replies on the wire, letter for letter.
pub proof fn lemma_replies_on_the_wire()
    ensures
        wire_text(ok_view()) == "HTTP/1.1 200 OK\r\n\r\nOK"@,
        wire_text(not_found_view()) == "HTTP/1.1 404 Not Found\r\n\r\n"@,
        wire_text(bad_request_view()) == "HTTP/1.1 400 Bad request\r\n\r\n"@,
{
    reveal_with_fuel(decimal, 3);
    reveal_strlit("HTTP/1.1 ");
    reveal_strlit(" ");
    reveal_strlit("\r\n");
    reveal_strlit("OK");
    reveal_strlit("Not Found");
    reveal_strlit("Bad request");
    reveal_strlit("HTTP/1.1 200 OK\r\n\r\nOK");
    reveal_strlit("HTTP/1.1 404 Not Found\r\n\r\n");
    reveal_strlit("HTTP/1.1 400 Bad request\r\n\r\n");
    assert(decimal(200) == seq!['2', '0', '0']);
    assert(decimal(404) == seq!['4', '0', '4']);
    assert(decimal(400) == seq!['4', '0', '0']);
    assert(wire_text(ok_view()) =~= "HTTP/1.1 200 OK\r\n\r\nOK"@);
    assert(wire_text(not_found_view()) =~= "HTTP/1.1 404 Not Found\r\n\r\n"@);
    assert(wire_text(bad_request_view()) =~= "HTTP/1.1 400 Bad request\r\n\r\n"@);
}

/// The number of workers of a pool for which no number was asked.
pub const DEFAULT_WORKERS: usize = 4;

/// The number of workers to start: the number asked for, and
/// `DEFAULT_WORKERS` where none was asked for.
pub fn worker_count(requested: Option<usize>) -> (n: usize)
    ensures
        n == match requested {
            Some(count) => count,
            None => DEFAULT_WORKERS,
        },
{
    match requested {
        Some(count) => count,
        None => DEFAULT_WORKERS,
    }
}

/// What the acceptor does after one attempt to accept a connection.
#[derive(Debug, Clone, Copy, PartialEq, Eq, Structural)]
pub enum AcceptorStep {
    /// The connection's job is queued; accept the next connection.
    Dispatched,
    /// No connection came of the attempt: report it and accept the next.
    Skipped,
    /// The pool is closed: stop accepting.
    Stopped,
}

/// Hands the job for an accepted connection to the pool. `accepted` is `None`
/// where the attempt to accept failed: that is no reason to stop. A closed
/// pool is.
pub fn dispatch<T>(pool: &mut ThreadPool<T>, accepted: Option<T>) -> (step: AcceptorStep)
    ensures
        match accepted {
            None => step == AcceptorStep::Skipped && final(pool)@ == old(pool)@,
            Some(job) => {
                &&& final(pool)@ == old(pool)@.submit(job).0
                &&& step == if old(pool)@.open {
                    AcceptorStep::Dispatched
                } else {
                    AcceptorStep::Stopped
                }
            },
        },
{
    match accepted {
        None => AcceptorStep::Skipped,
        Some(job) => match pool.execute(job) {
            Ok(()) => AcceptorStep::Dispatched,
            Err(_) => AcceptorStep::Stopped,
        },
    }
}

} // verus!

use web_server::http_request::HttpMethod;
use web_server::server::{
    bad_request, dispatch, not_found, reply, respond, route, worker_count, AcceptorStep,
    DEFAULT_WORKERS,
};
use web_server::thread_pool::{Assignment, ThreadPool};

#[test]
fn get_sleep_is_answered_with_200() {
    let response = respond(b"GET /sleep HTTP/1.1\r\n\r\n");
    assert_eq!(response.status, 200);
    assert_eq!(response.reason, "OK");
    assert_eq!(response.body.as_deref(), Some("OK"));
    assert_eq!(reply(b"GET /sleep HTTP/1.1\r\n\r\n"), b"HTTP/1.1 200 OK\r\n\r\nOK".to_vec());
}

#[test]
fn get_missing_is_answered_with_404() {
    let response = respond(b"GET /missing HTTP/1.1\r\n\r\n");
    assert_eq!(response.status, 404);
    assert_eq!(response.reason, "Not Found");
    assert_eq!(response.body, None);
    assert_eq!(reply(b"GET /missing HTTP/1.1\r\n\r\n"), b"HTTP/1.1 404 Not Found\r\n\r\n".to_vec());
}

#[test]
fn unknown_method_is_answered_with_400() {
    let response = respond(b"FOO / HTTP/1.1\r\n\r\n");
    assert_eq!(response.status, 400);
    assert_eq!(response.body, None);
    assert_eq!(reply(b"FOO / HTTP/1.1\r\n\r\n"), b"HTTP/1.1 400 Bad request\r\n\r\n".to_vec());
}

#[test]
fn every_decode_error_is_answered_with_400() {
    for input in [
        &b""[..],
        &b"GET /sleep\r\n\r\n"[..],
        &b"GET /sleep HTTP/1.1 x\r\n\r\n"[..],
        &b"BREW /sleep HTTP/1.1\r\n\r\n"[..],
        &b"GET /sleep HTTP/1.1\r\nContent-Length: 3\r\n\r\nab"[..],
        &b"GET /sleep\xFF HTTP/1.1\r\n\r\n"[..],
        &b"GET /sleep HTTP/1.1\r\nX: \xFF\r\n\r\n"[..],
    ] {
        assert_eq!(reply(input), b"HTTP/1.1 400 Bad request\r\n\r\n".to_vec());
    }
}

#[test]
fn query_string_does_not_change_the_route() {
    assert_eq!(respond(b"GET /sleep?ms=10 HTTP/1.1\r\n\r\n").status, 200);
    assert_eq!(respond(b"get /sleep HTTP/1.1\r\n\r\n").status, 200);
}

#[test]
fn leading_question_mark_leaves_an_empty_path() {
    assert_eq!(respond(b"GET ?x HTTP/1.1\r\n\r\n").status, 404);
}

#[test]
fn only_get_sleep_is_routed() {
    assert_eq!(route(HttpMethod::Get, "/sleep").status, 200);
    assert_eq!(route(HttpMethod::Get, "/sleep/").status, 404);
    assert_eq!(route(HttpMethod::Get, "/Sleep").status, 404);
    assert_eq!(route(HttpMethod::Get, "/").status, 404);
    assert_eq!(route(HttpMethod::Get, "").status, 404);
    for method in [HttpMethod::Post, HttpMethod::Put, HttpMethod::Delete, HttpMethod::Purge] {
        let response = route(method, "/sleep");
        assert_eq!(response.status, 404);
        assert_eq!(response.reason, "Not Found");
        assert_eq!(response.body, None);
    }
}

#[test]
fn request_with_body_is_routed_by_method_and_path() {
    assert_eq!(
        respond(b"POST /sleep HTTP/1.1\r\nContent-Length: 2\r\n\r\nhi").status,
        404
    );
    assert_eq!(
        respond(b"GET /sleep HTTP/1.1\r\nContent-Length: 2\r\n\r\nhi").status,
        200
    );
}

#[test]
fn error_responses_have_no_body_and_no_headers() {
    let missing = not_found();
    assert_eq!((missing.status, missing.reason.as_str()), (404, "Not Found"));
    assert_eq!(missing.body, None);
    assert_eq!(missing.headers.len(), 0);
    let bad = bad_request();
    assert_eq!((bad.status, bad.reason.as_str()), (400, "Bad request"));
    assert_eq!(bad.body, None);
    assert_eq!(bad.headers.len(), 0);
}

#[test]
fn reply_is_the_same_for_the_same_bytes() {
    for input in [&b"GET /sleep HTTP/1.1\r\n\r\n"[..], &b"GET /x HTTP/1.1\r\n\r\n"[..], &b"?"[..]] {
        let first = reply(input);
        assert_eq!(first, reply(input));
        assert!(first.starts_with(b"HTTP/1.1 "));
        assert!(first[9..12].iter().all(|b| b.is_ascii_digit()));
        assert_eq!(first[12], b' ');
    }
}

#[test]
fn dispatch_queues_the_job_of_an_accepted_connection() {
    let mut pool: ThreadPool<u32> = ThreadPool::new(2);
    assert_eq!(dispatch(&mut pool, Some(7)), AcceptorStep::Dispatched);
    assert_eq!(pool.queued(), 1);
    assert!(matches!(pool.poll(0), Assignment::Run(7)));
}

#[test]
fn dispatch_skips_a_failed_accept() {
    let mut pool: ThreadPool<u32> = ThreadPool::new(2);
    assert_eq!(dispatch(&mut pool, None), AcceptorStep::Skipped);
    assert_eq!(pool.queued(), 0);
    assert!(pool.is_open());
}

#[test]
fn dispatch_stops_at_a_closed_pool() {
    let mut pool: ThreadPool<u32> = ThreadPool::new(2);
    pool.shutdown();
    assert_eq!(dispatch(&mut pool, Some(7)), AcceptorStep::Stopped);
    assert_eq!(pool.queued(), 0);
    assert_eq!(dispatch(&mut pool, None), AcceptorStep::Skipped);
}

#[test]
fn four_workers_are_the_default() {
    assert_eq!(DEFAULT_WORKERS, 4);
    assert_eq!(worker_count(None), 4);
    assert_eq!(worker_count(Some(1)), 1);
    assert_eq!(worker_count(Some(16)), 16);
    assert_eq!(worker_count(Some(0)), 0);
}

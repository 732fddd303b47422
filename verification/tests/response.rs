use web_server::http_response::HttpResponse;
use web_server::string_map::StringMap;
use web_server::text::push_decimal;

#[test]
fn default_response_is_200_ok() {
    let response = HttpResponse::default();
    assert_eq!(response.status, 200);
    assert_eq!(response.reason, "OK");
    assert_eq!(response.headers.len(), 0);
    assert_eq!(response.body.as_deref(), Some("OK"));
}

#[test]
fn default_response_on_the_wire() {
    let response = HttpResponse::default();
    assert_eq!(response.as_string(), "HTTP/1.1 200 OK\r\n\r\nOK");
    assert_eq!(response.to_bytes(), b"HTTP/1.1 200 OK\r\n\r\nOK".to_vec());
}

#[test]
fn encoding_is_repeatable() {
    let response = HttpResponse::default();
    assert_eq!(response.to_bytes(), response.to_bytes());
    assert_eq!(HttpResponse::default().to_bytes(), response.to_bytes());
}

#[test]
fn headers_are_written_once_each_in_order() {
    let mut headers = StringMap::new();
    headers.insert("content-type".to_string(), "text/plain".to_string());
    headers.insert("x-b".to_string(), "1".to_string());
    headers.insert("content-type".to_string(), "text/html".to_string());
    let response = HttpResponse {
        status: 201,
        reason: "Created".to_string(),
        headers,
        body: Some("<p>hi</p>".to_string()),
    };
    assert_eq!(
        response.as_string(),
        "HTTP/1.1 201 Created\r\ncontent-type: text/html\r\nx-b: 1\r\n\r\n<p>hi</p>"
    );
}

#[test]
fn no_content_length_is_added() {
    let text = HttpResponse::default().as_string();
    assert!(!text.to_ascii_lowercase().contains("content-length"));
}

#[test]
fn absent_body_writes_nothing_after_the_empty_line() {
    let response = HttpResponse {
        status: 204,
        reason: "No Content".to_string(),
        headers: StringMap::new(),
        body: None,
    };
    assert_eq!(response.as_string(), "HTTP/1.1 204 No Content\r\n\r\n");
    let empty = HttpResponse {
        status: 204,
        reason: "No Content".to_string(),
        headers: StringMap::new(),
        body: Some(String::new()),
    };
    assert_eq!(empty.as_string(), response.as_string());
}

#[test]
fn to_bytes_is_the_text_in_utf8() {
    let response = HttpResponse {
        status: 200,
        reason: "\u{d6}K".to_string(),
        headers: StringMap::new(),
        body: Some("gr\u{fc}\u{df}e \u{1F44B}".to_string()),
    };
    assert_eq!(response.to_bytes(), response.as_string().into_bytes());
    assert_eq!(
        response.to_bytes(),
        "HTTP/1.1 200 \u{d6}K\r\n\r\ngr\u{fc}\u{df}e \u{1F44B}".as_bytes().to_vec()
    );
}

#[test]
fn status_is_written_in_decimal() {
    for (status, text) in [(0u16, "0"), (7, "7"), (10, "10"), (99, "99"), (100, "100"), (404, "404"), (65535, "65535")] {
        let response = HttpResponse {
            status,
            reason: "R".to_string(),
            headers: StringMap::new(),
            body: None,
        };
        assert_eq!(response.as_string(), format!("HTTP/1.1 {} R\r\n\r\n", text));
    }
}

#[test]
fn push_decimal_agrees_with_the_standard_library() {
    for n in 0..=u16::MAX {
        let mut s = String::from("n=");
        push_decimal(&mut s, n);
        assert_eq!(s, format!("n={}", n));
    }
}

#[test]
fn to_string_names_status_and_reason() {
    assert_eq!(HttpResponse::default().to_string(), "HttpResponse(200 OK)");
}

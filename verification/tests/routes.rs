use http_server_rust::request::{assemble, Assembled};
use http_server_rust::response::dispatch;

fn assemble_ready(raw: &[u8]) -> (http_server_rust::request::RequestHead, Vec<u8>) {
    match assemble(&raw.to_vec()) {
        Assembled::Ready(h, body) => (h, body),
        _ => panic!("request did not assemble"),
    }
}

fn respond(raw: &[u8]) -> Vec<u8> {
    let (h, body) = assemble_ready(raw);
    dispatch(&h, &body)
}

#[test]
fn echo_returns_suffix_with_exact_content_length() {
    let resp = respond(b"GET /echo/hello HTTP/1.1\r\nHost: x\r\n\r\n");
    assert_eq!(
        resp,
        b"HTTP/1.1 200 OK\r\nContent-Type: text/plain\r\nContent-Length: 5\r\n\r\nhello".to_vec()
    );
}

#[test]
fn echo_of_longer_text_counts_bytes() {
    let resp = respond(b"GET /echo/abcdefghij123 HTTP/1.1\r\n\r\n");
    assert_eq!(
        resp,
        b"HTTP/1.1 200 OK\r\nContent-Type: text/plain\r\nContent-Length: 13\r\n\r\nabcdefghij123"
            .to_vec()
    );
}

#[test]
fn echo_with_empty_suffix_returns_an_empty_body() {
    let resp = respond(b"GET /echo/ HTTP/1.1\r\n\r\n");
    assert_eq!(
        resp,
        b"HTTP/1.1 200 OK\r\nContent-Type: text/plain\r\nContent-Length: 0\r\n\r\n".to_vec()
    );
}

#[test]
fn root_returns_fixed_greeting() {
    let resp = respond(b"GET / HTTP/1.1\r\n\r\n");
    assert_eq!(
        resp,
        b"HTTP/1.1 200 OK\r\nContent-Length: 12\r\n\r\nHello world!".to_vec()
    );
}

#[test]
fn root_greeting_does_not_depend_on_headers_or_earlier_requests() {
    let first = respond(b"GET / HTTP/1.1\r\nX-State: a\r\n\r\n");
    let _other = respond(b"GET /echo/changes-nothing HTTP/1.1\r\n\r\n");
    let second = respond(b"GET / HTTP/1.1\r\nX-State: b\r\nAccept: text/html\r\n\r\n");
    assert_eq!(first, second);
    assert_eq!(
        first,
        b"HTTP/1.1 200 OK\r\nContent-Length: 12\r\n\r\nHello world!".to_vec()
    );
}

#[test]
fn unknown_route_is_not_found() {
    let resp = respond(b"GET /other HTTP/1.1\r\n\r\n");
    assert_eq!(resp, b"HTTP/1.1 404 Not Found\r\n\r\n".to_vec());
    let resp2 = respond(b"PUT /json HTTP/1.1\r\n\r\n");
    assert_eq!(resp2, b"HTTP/1.1 404 Not Found\r\n\r\n".to_vec());
}

#[test]
fn malformed_request_line_is_rejected() {
    let v = b"NONSENSE\r\n\r\n".to_vec();
    assert!(matches!(assemble(&v), Assembled::Malformed));
    let v2 = b"\r\n\r\n".to_vec();
    assert!(matches!(assemble(&v2), Assembled::Malformed));
}

#[test]
fn post_json_without_body_is_bad_request() {
    let resp = respond(b"POST /json HTTP/1.1\r\nContent-Type: application/json\r\n\r\n");
    assert_eq!(resp, b"HTTP/1.1 400 Bad Request\r\n\r\n".to_vec());
}

#[test]
fn post_json_with_wrong_content_type_is_bad_request() {
    let resp =
        respond(b"POST /json HTTP/1.1\r\nContent-Type: text/plain\r\nContent-Length: 24\r\n\r\n{\"id\":1,\"value\":\"x\"}pad!");
    assert_eq!(resp, b"HTTP/1.1 400 Bad Request\r\n\r\n".to_vec());
}

#[test]
fn post_json_steps_the_identifier() {
    let resp = respond(
        b"POST /json HTTP/1.1\r\nContent-Type: application/json\r\nContent-Length: 22\r\n\r\n{\"id\":41,\"value\":\"vv\"}",
    );
    let expected =
        b"HTTP/1.1 200 OK\r\nContent-Type: application/json\r\nContent-Length: 22\r\n\r\n{\"id\":42,\"value\":\"vv\"}";
    assert_eq!(resp, expected.to_vec());
}

#[test]
fn post_json_without_content_type_header_still_parses() {
    let resp = respond(
        b"POST /json HTTP/1.1\r\nContent-Length: 21\r\n\r\n{\"id\":0,\"value\":\"a\"}x",
    );
    // the declared length carves the body; the extra byte is not part of it
    assert_eq!(
        resp,
        b"HTTP/1.1 400 Bad Request\r\n\r\n".to_vec()
    );
    let resp2 = respond(b"POST /json HTTP/1.1\r\nContent-Length: 20\r\n\r\n{\"id\":0,\"value\":\"a\"}");
    assert_eq!(
        resp2,
        b"HTTP/1.1 200 OK\r\nContent-Type: application/json\r\nContent-Length: 20\r\n\r\n{\"id\":1,\"value\":\"a\"}".to_vec()
    );
}

#[test]
fn header_names_are_case_insensitive() {
    let resp = respond(
        b"POST /json HTTP/1.1\r\ncOnTeNt-TyPe: application/json\r\nCONTENT-LENGTH: 20\r\n\r\n{\"id\":7,\"value\":\"q\"}",
    );
    assert_eq!(
        resp,
        b"HTTP/1.1 200 OK\r\nContent-Type: application/json\r\nContent-Length: 20\r\n\r\n{\"id\":8,\"value\":\"q\"}".to_vec()
    );
}

#[test]
fn posting_a_response_body_back_increments_by_exactly_one_more() {
    let first = respond(
        b"POST /json HTTP/1.1\r\nContent-Type: application/json\r\nContent-Length: 22\r\n\r\n{\"id\":40,\"value\":\"vv\"}",
    );
    // carve the body out of the first response and send it back
    let sep = first.windows(4).position(|w| w == b"\r\n\r\n").expect("framed") + 4;
    let body1 = &first[sep..];
    assert_eq!(body1, b"{\"id\":41,\"value\":\"vv\"}");
    let mut second_request =
        format!("POST /json HTTP/1.1\r\nContent-Length: {}\r\n\r\n", body1.len()).into_bytes();
    second_request.extend_from_slice(body1);
    let second = respond(&second_request);
    let sep2 = second.windows(4).position(|w| w == b"\r\n\r\n").expect("framed") + 4;
    assert_eq!(&second[sep2..], b"{\"id\":42,\"value\":\"vv\"}");
}

#[test]
fn content_length_accepts_a_leading_plus_sign() {
    let resp = respond(
        b"POST /json HTTP/1.1\r\nContent-Type: application/json\r\nContent-Length: +20\r\n\r\n{\"id\":2,\"value\":\"p\"}",
    );
    assert_eq!(
        resp,
        b"HTTP/1.1 200 OK\r\nContent-Type: application/json\r\nContent-Length: 20\r\n\r\n{\"id\":3,\"value\":\"p\"}".to_vec()
    );
}

#[test]
fn unparseable_content_length_counts_as_zero() {
    // the declared length cannot be read, so no body bytes are claimed
    let resp = respond(b"GET /echo/ok HTTP/1.1\r\nContent-Length: many\r\n\r\n");
    assert_eq!(
        resp,
        b"HTTP/1.1 200 OK\r\nContent-Type: text/plain\r\nContent-Length: 2\r\n\r\nok".to_vec()
    );
}

#[test]
fn malformed_json_body_yields_bad_request() {
    let resp = respond(
        b"POST /json HTTP/1.1\r\nContent-Type: application/json\r\nContent-Length: 9\r\n\r\nnot json!",
    );
    assert_eq!(resp, b"HTTP/1.1 400 Bad Request\r\n\r\n".to_vec());
}

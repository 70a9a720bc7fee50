use http_server::request::Request;
use http_server::files::{bytes_read, text_read, TextKind};
use http_server::response::{Html, Response, ResponseBody, StatusCode, Svg};

#[test]
fn statuses_have_codes_and_reasons() {
    assert_eq!(StatusCode::Success.to_string(), "200 OK");
    assert_eq!(StatusCode::Created.to_string(), "201 Created");
    assert_eq!(StatusCode::BadRequest.to_string(), "400 Bad Request");
    assert_eq!(StatusCode::NotFound.to_string(), "404 Not Found");
    assert_eq!(StatusCode::LengthRequired.to_string(), "411 Length Required");
    assert_eq!(
        StatusCode::InternalServerError.to_string(),
        "500 Internal Server Error"
    );
}

#[test]
fn a_bare_response_has_no_headers() {
    let bytes: Vec<u8> = Response::new(StatusCode::NotFound).into();
    assert_eq!(bytes, b"HTTP/1.1 404 Not Found\r\n\r\n");
    assert_eq!(
        Response::new(StatusCode::Created).into_bytes(),
        b"HTTP/1.1 201 Created\r\n\r\n"
    );
}

#[test]
fn a_body_is_announced() {
    let bytes: Vec<u8> = Response::new(StatusCode::Success)
        .with_body("foobar/1.2.3".to_string())
        .into();
    assert_eq!(
        bytes,
        b"HTTP/1.1 200 OK\r\nContent-Type: text/plain\r\nContent-Length: 12\r\n\r\nfoobar/1.2.3"
    );
    // The length counts bytes.
    let bytes = Response::new(StatusCode::Success)
        .with_body(Html("\u{e9}".to_string()))
        .into_bytes();
    assert_eq!(
        bytes,
        b"HTTP/1.1 200 OK\r\nContent-Type: text/html\r\nContent-Length: 2\r\n\r\n\xc3\xa9"
    );
}

#[test]
fn a_second_body_takes_the_place_of_the_first() {
    let bytes = Response::new(StatusCode::Success)
        .with_body("first".to_string())
        .with_body(Svg("<svg/>".to_string()))
        .into_bytes();
    assert_eq!(
        bytes,
        b"HTTP/1.1 200 OK\r\nContent-Type: image/svg+xml\r\nContent-Length: 6\r\n\r\n<svg/>"
    );
}

#[test]
fn bodies_know_their_kind_and_length() {
    let html = Html("<p>".to_string());
    assert_eq!(html.content_type(), "text/html");
    assert_eq!(html.content_length(), 3);
    assert_eq!(html.to_bytes(), b"<p>");
    let svg = Svg("\u{20ac}".to_string());
    assert_eq!(svg.content_type(), "image/svg+xml");
    assert_eq!(svg.content_length(), 3);
    assert_eq!(svg.to_bytes(), b"\xe2\x82\xac");
    let text = "a".to_string();
    assert_eq!(text.content_type(), "text/plain");
    assert_eq!(text.content_length(), 1);
    assert_eq!(text.to_bytes(), b"a");
    let bytes = vec![0u8, 255];
    assert_eq!(bytes.content_type(), "application/octet-stream");
    assert_eq!(bytes.content_length(), 2);
    assert_eq!(bytes.to_bytes(), vec![0u8, 255]);
}

#[test]
fn files_are_carried_by_their_kind() {
    assert_eq!(
        text_read(TextKind::Html, "<p>".to_string()),
        b"HTTP/1.1 200 OK\r\nContent-Type: text/html\r\nContent-Length: 3\r\n\r\n<p>"
    );
    assert_eq!(
        text_read(TextKind::Svg, "".to_string()),
        b"HTTP/1.1 200 OK\r\nContent-Type: image/svg+xml\r\nContent-Length: 0\r\n\r\n"
    );
    assert_eq!(
        bytes_read(vec![1, 2, 3]),
        b"HTTP/1.1 200 OK\r\nContent-Type: application/octet-stream\r\nContent-Length: 3\r\n\r\n\x01\x02\x03"
    );
}

#[test]
fn a_response_reads_back() {
    let body = vec![0u8, b'\n', 255, b':', b' '];
    let sent = Response::new(StatusCode::Success)
        .with_body(body.clone())
        .into_bytes();
    let status_line = b"HTTP/1.1 200 OK\r\n";
    assert_eq!(&sent[..status_line.len()], status_line);
    let mut bytes = b"GET / HTTP/1.1\r\n".to_vec();
    bytes.extend_from_slice(&sent[status_line.len()..]);
    let request = Request::parse(&bytes).unwrap();
    assert_eq!(request.headers().len(), 2);
    assert_eq!(
        request.headers().get("Content-Type"),
        Some(&"application/octet-stream".to_string())
    );
    assert_eq!(request.headers().get("Content-Length"), Some(&"5".to_string()));
    assert_eq!(request.body(), &body[..]);
}

#[test]
fn the_first_empty_line_ends_the_head() {
    let payload = "a\r\n\r\nb\r\n\r\n".to_string();
    let data = payload.clone().into_bytes();
    for bytes in [
        Response::new(StatusCode::Success).with_body(Html(payload.clone())).into_bytes(),
        Response::new(StatusCode::Success).with_body(Svg(payload.clone())).into_bytes(),
        Response::new(StatusCode::Created).with_body(payload.clone()).into_bytes(),
        Response::new(StatusCode::Created).with_body(data.clone()).into_bytes(),
    ] {
        let at = bytes.windows(4).position(|w| w == b"\r\n\r\n").unwrap();
        assert_eq!(&bytes[at + 4..], &data[..]);
    }
    let bytes = Response::new(StatusCode::NotFound).into_bytes();
    let at = bytes.windows(4).position(|w| w == b"\r\n\r\n").unwrap();
    assert_eq!(at + 4, bytes.len());
}

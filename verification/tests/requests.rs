use http_server::method::Method;
use http_server::request::{refused, Refusal, Request};

fn parse(bytes: &[u8]) -> Result<Request, Refusal> {
    Request::parse(&bytes.to_vec())
}

#[test]
fn parses_a_request_without_headers() {
    let request = parse(b"GET / HTTP/1.1\r\n\r\n").unwrap();
    assert_eq!(request.method(), Method::Get);
    assert_eq!(request.target(), "/");
    assert_eq!(request.http_version(), "HTTP/1.1");
    assert_eq!(request.headers().len(), 0);
    assert_eq!(request.body().len(), 0);
}

#[test]
fn parses_headers() {
    let request = parse(
        b"GET / HTTP/1.1\r\nHost: localhost:4221\r\nUser-Agent: curl/7.68.0\r\nAccept: */*\r\n\r\n",
    )
    .unwrap();
    assert_eq!(request.headers().len(), 3);
    assert_eq!(
        request.headers().get("Host"),
        Some(&"localhost:4221".to_string())
    );
    assert_eq!(
        request.headers().get("User-Agent"),
        Some(&"curl/7.68.0".to_string())
    );
    assert_eq!(request.headers().get("Accept"), Some(&"*/*".to_string()));
}

#[test]
fn parses_a_body_of_the_declared_length() {
    let request =
        parse(b"POST /files HTTP/1.1\r\nContent-Length: 13\r\n\r\nHello, World!\r\n").unwrap();
    assert_eq!(request.method(), Method::Post);
    assert_eq!(request.body(), b"Hello, World!");
}

#[test]
fn refuses_a_body_without_a_length() {
    assert_eq!(
        parse(b"GET / HTTP/1.1\r\n\r\n\r\n").err(),
        Some(Refusal::LengthRequired)
    );
    assert_eq!(
        parse(b"POST / HTTP/1.1\r\nContent-Length: 0\r\n\r\nx").err(),
        Some(Refusal::LengthRequired)
    );
    // The name of the header is taken as it is written.
    assert_eq!(
        parse(b"POST / HTTP/1.1\r\ncontent-length: 1\r\n\r\nx").err(),
        Some(Refusal::LengthRequired)
    );
}

#[test]
fn refuses_a_short_body() {
    assert_eq!(
        parse(b"POST / HTTP/1.1\r\nContent-Length: 5\r\n\r\nabc").err(),
        Some(Refusal::ShortBody)
    );
    assert_eq!(
        parse(b"POST / HTTP/1.1\r\nContent-Length: 5\r\n\r\n").err(),
        Some(Refusal::ShortBody)
    );
}

#[test]
fn refuses_a_crowded_request_line() {
    assert_eq!(
        parse(b"GET / HTTP/1.1 more\r\n\r\n").err(),
        Some(Refusal::CrowdedLine)
    );
}

#[test]
fn refuses_lines_that_are_not_utf8() {
    assert_eq!(
        parse(b"GET /\xff HTTP/1.1\r\n\r\n").err(),
        Some(Refusal::UnreadableLine)
    );
    assert_eq!(
        parse(b"GET / HTTP/1.1\r\nHost: \xc3\r\n\r\n").err(),
        Some(Refusal::UnreadableHeader)
    );
    // A body need not be UTF-8.
    let request = parse(b"POST / HTTP/1.1\r\nContent-Length: 2\r\n\r\n\xff\xfe").unwrap();
    assert_eq!(request.body(), b"\xff\xfe");
}

#[test]
fn refuses_a_length_that_is_no_number() {
    for value in ["abc", "-1", "+", "1 2", "99999999999999999999", "0x10", "1_0"] {
        let bytes = format!("GET / HTTP/1.1\r\nContent-Length: {value}\r\n\r\n").into_bytes();
        assert_eq!(parse(&bytes).err(), Some(Refusal::InvalidLength), "{value}");
    }
    let request = parse(b"GET / HTTP/1.1\r\nContent-Length: +3\r\n\r\nabc").unwrap();
    assert_eq!(request.body(), b"abc");
}

#[test]
fn refuses_a_length_that_no_buffer_can_hold() {
    for length in [isize::MAX as usize + 1, usize::MAX] {
        let bytes = format!("GET / HTTP/1.1\r\nContent-Length: {length}\r\n\r\nx").into_bytes();
        assert_eq!(parse(&bytes).err(), Some(Refusal::ExcessiveLength), "{length}");
    }
    let bytes = format!("GET / HTTP/1.1\r\nContent-Length: {}\r\n\r\nx", isize::MAX).into_bytes();
    assert_eq!(parse(&bytes).err(), Some(Refusal::ShortBody));
}

#[test]
fn a_default_request_is_empty() {
    let request = Request::default();
    assert_eq!(request.supported_method(), None);
    assert_eq!(request.target(), "");
    assert_eq!(request.http_version(), "");
    assert_eq!(request.headers().len(), 0);
    assert_eq!(request.body(), b"");
}

#[test]
fn what_is_read_is_clean() {
    // White space of any kind parts the request line and goes from around names and values.
    let request = parse(
        " get\t/a\u{3000}\u{85}X/1 \r\n \u{a0}Key\u{2003}: \t v: w\r\n\tName : \u{a0}some value\u{85}\n\r\n"
            .as_bytes(),
    )
    .unwrap();
    assert_eq!(request.method(), Method::Get);
    assert_eq!(request.target(), "/a");
    assert_eq!(request.http_version(), "X/1");
    assert_eq!(request.headers().len(), 1);
    assert_eq!(
        request.headers().get("Name"),
        Some(&"some value".to_string())
    );
    // Without a first part there is no other.
    let request = parse(b" \t \r\n\r\n").unwrap();
    assert_eq!(request.supported_method(), None);
    assert_eq!(request.target(), "");
    assert_eq!(request.http_version(), "");
}

#[test]
fn missing_parts_are_empty() {
    let request = parse(b"").unwrap();
    assert_eq!(request.target(), "");
    assert_eq!(request.http_version(), "");
    assert_eq!(request.supported_method(), None);
    let request = parse(b"post \t /x\n").unwrap();
    assert_eq!(request.supported_method(), Some(Method::Post));
    assert_eq!(request.target(), "/x");
    assert_eq!(request.http_version(), "");
}

#[test]
fn header_lines_of_other_shapes_are_passed_over() {
    let request = parse(
        b"GET / HTTP/1.1\r\nnone\r\na:b\r\nx: y: z\r\n\nKey:  padded \t\r\nEmpty: \r\nDup: 1\r\nDup: 2\r\n\r\n",
    )
    .unwrap();
    assert_eq!(request.headers().len(), 3);
    assert_eq!(request.headers().get("Key"), Some(&"padded".to_string()));
    assert_eq!(request.headers().get("Empty"), Some(&"".to_string()));
    assert_eq!(request.headers().get("Dup"), Some(&"2".to_string()));
}

#[test]
fn headers_may_end_with_the_bytes() {
    let request = parse(b"GET / HTTP/1.1\r\nHost: here").unwrap();
    assert_eq!(request.headers().get("Host"), Some(&"here".to_string()));
    let request = parse(b"GET / HTTP/1.1\r\nHost: ").unwrap();
    assert_eq!(request.headers().len(), 0);
    let request = parse(b"GET / HTTP/1.1\r\nHost: : ").unwrap();
    assert_eq!(request.headers().get("Host"), Some(&"".to_string()));
}

#[test]
fn refusals_are_answered() {
    assert_eq!(
        Request::try_from(b"POST / HTTP/1.1\r\n\r\nbody".to_vec()).err(),
        Some(b"HTTP/1.1 411 Length Required\r\n\r\n".to_vec())
    );
    assert_eq!(
        Request::try_from(b"a b c d\r\n\r\n".to_vec()).err(),
        Some(b"HTTP/1.1 400 Bad Request\r\n\r\n".to_vec())
    );
    for bytes in [
        &b"GET /\xff HTTP/1.1\r\n\r\n"[..],
        &b"GET / HTTP/1.1\r\nHost: \xc3\r\n\r\n"[..],
        &b"POST / HTTP/1.1\r\nContent-Length: 5\r\n\r\nabc"[..],
    ] {
        assert_eq!(
            Request::try_from(bytes.to_vec()).err(),
            Some(b"HTTP/1.1 400 Bad Request\r\n\r\n".to_vec())
        );
    }
    let request = Request::try_from(b"GET /x HTTP/1.1\r\n\r\n".to_vec()).ok().unwrap();
    assert_eq!(request.target(), "/x");
    assert_eq!(refused(Refusal::InvalidLength), None);
    assert_eq!(refused(Refusal::ExcessiveLength), None);
}

#[test]
fn a_written_request_reads_back() {
    let body = "h\u{e9}llo\n: there".as_bytes().to_vec();
    let mut bytes = format!(
        "PoSt /\u{e9} HTTP/9\r\nA-b: c:d\r\nContent-Length: {}\r\n\r\n",
        body.len()
    )
    .into_bytes();
    bytes.extend_from_slice(&body);
    let request = parse(&bytes).unwrap();
    assert_eq!(request.method(), Method::Post);
    assert_eq!(request.target(), "/\u{e9}");
    assert_eq!(request.http_version(), "HTTP/9");
    assert_eq!(request.headers().get("A-b"), Some(&"c:d".to_string()));
    assert_eq!(request.body(), &body[..]);
    assert_eq!(request.headers().len(), 2);
    assert_eq!(
        request.headers().get("Content-Length"),
        Some(&body.len().to_string())
    );
    // An empty body reads back too.
    let request = parse(b"GET /x HTTP/1.1\r\nA: b\r\nContent-Length: 0\r\n\r\n").unwrap();
    assert_eq!(request.target(), "/x");
    assert_eq!(request.headers().len(), 2);
    assert_eq!(request.headers().get("A"), Some(&"b".to_string()));
    assert_eq!(
        request.headers().get("Content-Length"),
        Some(&"0".to_string())
    );
    assert_eq!(request.body(), b"");
}

#[test]
fn method_names_ignore_case() {
    for name in ["get", "GET", "gEt"] {
        assert_eq!(Method::parse(name), Some(Method::Get));
        assert_eq!(Method::from(name), Method::Get);
    }
    assert_eq!(Method::from("POST"), Method::Post);
    for name in ["", "PUT", "get ", "ge", "postt", "po\u{17f}t"] {
        assert_eq!(Method::parse(name), None);
    }
}

#[test]
fn method_names_go_by_their_lower_case_form() {
    // No character but the ASCII letters has one of these letters as its lower-case form.
    let letters = "getpos";
    for c in '\0'..=char::MAX {
        let lower: String = c.to_lowercase().collect();
        let ascii = c.to_ascii_lowercase().to_string();
        if lower.chars().any(|l| letters.contains(l)) || ascii.chars().any(|l| letters.contains(l)) {
            assert_eq!(lower, ascii);
        }
    }
}

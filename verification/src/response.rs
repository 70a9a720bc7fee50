//! Responses and the bytes that they are sent as.
use crate::outside;
use crate::text;
use indexmap::IndexMap;
use vstd::prelude::*;
use vstd::utf8;

verus! {

broadcast use vstd::string::group_string_axioms;

/// The status of a response.
#[derive(Debug, Clone, Copy, PartialEq, Eq, Structural)]
pub enum StatusCode {
    Success,
    Created,
    BadRequest,
    NotFound,
    LengthRequired,
    InternalServerError,
}

/// A status as the status line writes it: the code and the reason phrase.
pub open spec fn status_text(status: StatusCode) -> Seq<char> {
    match status {
        StatusCode::Success => "200 OK"@,
        StatusCode::Created => "201 Created"@,
        StatusCode::BadRequest => "400 Bad Request"@,
        StatusCode::NotFound => "404 Not Found"@,
        StatusCode::LengthRequired => "411 Length Required"@,
        StatusCode::InternalServerError => "500 Internal Server Error"@,
    }
}

impl StatusCode {
    /// The status code and its reason phrase.
    pub fn to_string(&self) -> (s: String)
        ensures
            s@ == status_text(*self),
    {
        self.text().to_owned()
    }

    fn text(&self) -> (s: &'static str)
        ensures
            s@ == status_text(*self),
    {
        match self {
            StatusCode::Success => "200 OK",
            StatusCode::Created => "201 Created",
            StatusCode::BadRequest => "400 Bad Request",
            StatusCode::NotFound => "404 Not Found",
            StatusCode::LengthRequired => "411 Length Required",
            StatusCode::InternalServerError => "500 Internal Server Error",
        }
    }
}

/// The most characters that a media type may have.
pub const MEDIA_TYPE_LIMIT: usize = 0x100_0000;

/// What can be sent as the body of a response.
pub trait ResponseBody: Sized {
    /// The media type that the body is announced with.
    spec fn media_type(&self) -> Seq<char>;

    /// The bytes of the body.
    spec fn payload(&self) -> Seq<u8>;

    /// The media type. The bound keeps a response head within what a vector can hold.
    fn content_type(&self) -> (media_type: &str)
        ensures
            media_type@ == self.media_type(),
            media_type@.len() <= MEDIA_TYPE_LIMIT,
    ;

    /// The number of bytes in the body.
    fn content_length(&self) -> (n: usize)
        ensures
            n == self.payload().len(),
    ;

    /// The body as bytes.
    fn to_bytes(self) -> (bytes: Vec<u8>)
        ensures
            bytes@ == self.payload(),
    ;
}

/// An HTML document.
pub struct Html(pub String);

impl ResponseBody for Html {
    open spec fn media_type(&self) -> Seq<char> {
        "text/html"@
    }

    open spec fn payload(&self) -> Seq<u8> {
        utf8::encode_utf8(self.0@)
    }

    fn content_type(&self) -> &str {
        proof {
            reveal_strlit("text/html");
        }
        "text/html"
    }

    fn content_length(&self) -> usize {
        self.0.as_str().as_bytes().len()
    }

    fn to_bytes(self) -> Vec<u8> {
        self.0.as_str().as_bytes_vec()
    }
}

/// An SVG image.
pub struct Svg(pub String);

impl ResponseBody for Svg {
    open spec fn media_type(&self) -> Seq<char> {
        "image/svg+xml"@
    }

    open spec fn payload(&self) -> Seq<u8> {
        utf8::encode_utf8(self.0@)
    }

    fn content_type(&self) -> &str {
        proof {
            reveal_strlit("image/svg+xml");
        }
        "image/svg+xml"
    }

    fn content_length(&self) -> usize {
        self.0.as_str().as_bytes().len()
    }

    fn to_bytes(self) -> Vec<u8> {
        self.0.as_str().as_bytes_vec()
    }
}

/// Plain text.
impl ResponseBody for String {
    open spec fn media_type(&self) -> Seq<char> {
        "text/plain"@
    }

    open spec fn payload(&self) -> Seq<u8> {
        utf8::encode_utf8(self@)
    }

    fn content_type(&self) -> &str {
        proof {
            reveal_strlit("text/plain");
        }
        "text/plain"
    }

    fn content_length(&self) -> usize {
        self.as_str().as_bytes().len()
    }

    fn to_bytes(self) -> Vec<u8> {
        self.as_str().as_bytes_vec()
    }
}

/// Bytes of no particular kind.
impl ResponseBody for Vec<u8> {
    open spec fn media_type(&self) -> Seq<char> {
        "application/octet-stream"@
    }

    open spec fn payload(&self) -> Seq<u8> {
        self@
    }

    fn content_type(&self) -> &str {
        proof {
            reveal_strlit("application/octet-stream");
        }
        "application/octet-stream"
    }

    fn content_length(&self) -> usize {
        self.len()
    }

    fn to_bytes(self) -> Vec<u8> {
        self
    }
}

/// A response: a status, and perhaps a body with the headers that announce it.
#[derive(Debug)]
pub struct Response {
    status_code: StatusCode,
    headers: Option<IndexMap<String, String>>,
    body: Option<Vec<u8>>,
}

/// The headers of a body: its media type and its length.
pub open spec fn body_headers(media_type: Seq<char>, length: nat) -> Seq<(Seq<char>, Seq<char>)> {
    seq![("Content-Type"@, media_type), ("Content-Length"@, text::decimal(length))]
}

/// One header line.
pub open spec fn header_line(header: (Seq<char>, Seq<char>)) -> Seq<char> {
    header.0 + ": "@ + header.1 + "\r\n"@
}

/// Header lines, one after the other.
pub open spec fn header_lines(headers: Seq<(Seq<char>, Seq<char>)>) -> Seq<u8>
    decreases headers.len(),
{
    if headers.len() == 0 {
        Seq::empty()
    } else {
        header_lines(headers.drop_last()) + utf8::encode_utf8(header_line(headers.last()))
    }
}

/// The bytes of a response: the status line, the header lines, an empty line and the body.
pub open spec fn wire(
    status: StatusCode,
    headers: Option<Seq<(Seq<char>, Seq<char>)>>,
    body: Option<Seq<u8>>,
) -> Seq<u8> {
    utf8::encode_utf8("HTTP/1.1 "@ + status_text(status) + "\r\n"@) + (match headers {
        Some(h) => header_lines(h),
        None => Seq::empty(),
    }) + utf8::encode_utf8("\r\n"@) + (match body {
        Some(b) => b,
        None => Seq::empty(),
    })
}

/// The bytes of a response without a body.
pub open spec fn bare(status: StatusCode) -> Seq<u8> {
    wire(status, None, None)
}

/// The bytes of a response with a body.
pub open spec fn full(status: StatusCode, media_type: Seq<char>, payload: Seq<u8>) -> Seq<u8> {
    wire(status, Some(body_headers(media_type, payload.len())), Some(payload))
}

impl Response {
    /// The status.
    pub closed spec fn status(self) -> StatusCode {
        self.status_code
    }

    /// The headers in the order in which they are sent, if there are any.
    pub closed spec fn header_seq(self) -> Option<Seq<(Seq<char>, Seq<char>)>> {
        match self.headers {
            Some(h) => Some(outside::header_entries(h)),
            None => None,
        }
    }

    /// The body, if there is one.
    pub closed spec fn body_seq(self) -> Option<Seq<u8>> {
        match self.body {
            Some(b) => Some(b@),
            None => None,
        }
    }

    /// The bytes that the response is sent as.
    pub open spec fn bytes(self) -> Seq<u8> {
        wire(self.status(), self.header_seq(), self.body_seq())
    }

    /// Headers come with a body, and they announce its media type and its length.
    #[verifier::type_invariant]
    spec fn framed(self) -> bool {
        match (self.header_seq(), self.body_seq()) {
            (None, None) => true,
            (Some(h), Some(b)) => {
                &&& h == body_headers(h[0].1, b.len())
                &&& h[0].1.len() <= MEDIA_TYPE_LIMIT
            },
            _ => false,
        }
    }

    /// A response without headers and body.
    pub fn new(status_code: StatusCode) -> (response: Self)
        ensures
            response.status() == status_code,
            response.header_seq() is None,
            response.body_seq() is None,
            response.bytes() == bare(status_code),
    {
        Response { status_code, headers: None, body: None }
    }

    /// The response with a body, and with the headers that announce it, in place of those that it
    /// may have had.
    pub fn with_body<B: ResponseBody>(self, body: B) -> (response: Self)
        ensures
            response.status() == self.status(),
            response.header_seq() == Some(
                body_headers(body.media_type(), body.payload().len()),
            ),
            response.body_seq() == Some(body.payload()),
            response.bytes() == full(self.status(), body.media_type(), body.payload()),
    {
        proof {
            use_type_invariant(&self);
            reveal_strlit("Content-Type");
            reveal_strlit("Content-Length");
            assert("Content-Type"@.len() != "Content-Length"@.len());
        }
        let status_code = self.status_code;
        let mut headers = match self.headers {
            Some(h) => h,
            None => outside::headers_new(),
        };
        let ghost before = outside::header_entries(headers);
        let ghost media_type = body.media_type();
        outside::headers_insert(
            &mut headers,
            "Content-Type".to_owned(),
            body.content_type().to_owned(),
        );
        let ghost between = outside::header_entries(headers);
        outside::headers_insert(
            &mut headers,
            "Content-Length".to_owned(),
            text::write_decimal(body.content_length()),
        );
        proof {
            reveal_with_fuel(outside::with_entry, 3);
            let announced = body_headers(media_type, body.payload().len());
            if before.len() == 0 {
                assert(between == seq![("Content-Type"@, media_type)]);
                assert(between.skip(1) == Seq::<(Seq<char>, Seq<char>)>::empty());
            } else {
                assert(before.skip(1) == seq![before[1]]);
                assert(between == seq![("Content-Type"@, media_type), before[1]]);
                assert(between.skip(1)[0] == before[1]);
                assert(between.skip(1).skip(1) == Seq::<(Seq<char>, Seq<char>)>::empty());
            }
            assert(outside::header_entries(headers) == announced);
        }
        let bytes = body.to_bytes();
        Response { status_code, headers: Some(headers), body: Some(bytes) }
    }

    /// The bytes that the response is sent as.
    pub fn into_bytes(self) -> (out: Vec<u8>)
        ensures
            out@ == self.bytes(),
    {
        proof {
            use_type_invariant(&self);
        }
        let mut line = String::new();
        line.append("HTTP/1.1 ");
        line.append(self.status_code.text());
        line.append("\r\n");
        let mut out = line.as_str().as_bytes_vec();
        let ghost start = out@;
        proof {
            lemma_status_line_short(self.status());
        }
        if let Some(headers) = &self.headers {
            let ghost entries = outside::header_entries(*headers);
            proof {
                reveal_strlit("Content-Type");
                reveal_strlit("Content-Length");
                reveal_strlit(": ");
                reveal_strlit("\r\n");
                text::lemma_decimal_short(self.body->0.len() as nat);
            }
            let mut i: usize = 0;
            loop
                invariant
                    entries == outside::header_entries(*headers),
                    entries.len() == 2,
                    forall|j: int|
                        0 <= j < entries.len() ==> (#[trigger] header_line(entries[j])).len()
                            <= MEDIA_TYPE_LIMIT + 40,
                    i <= entries.len(),
                    start.len() <= 400,
                    header_lines(entries.take(i as int)).len() <= 0x400_00a0 * i,
                    out@ == start + header_lines(entries.take(i as int)),
                ensures
                    i == entries.len(),
                    header_lines(entries.take(i as int)).len() <= 0x800_0140,
                    out@ == start + header_lines(entries.take(i as int)),
                decreases entries.len() - i,
            {
                match outside::headers_at(headers, i) {
                    Some((key, value)) => {
                        let mut line = String::new();
                        line.append(key.as_str());
                        line.append(": ");
                        line.append(value.as_str());
                        line.append("\r\n");
                        let ghost written = header_line(entries[i as int]);
                        assert(line@ == written);
                        proof {
                            lemma_encoded_length(written);
                            assert(entries.take(i + 1).drop_last() == entries.take(i as int));
                        }
                        outside::put(&mut out, line.as_str().as_bytes());
                        assert(out@ == start + header_lines(entries.take(i + 1)));
                        i = i + 1;
                    },
                    None => {
                        break;
                    },
                }
            }
            assert(entries.take(i as int) == entries);
        }
        let blank = "\r\n";
        proof {
            reveal_strlit("\r\n");
            lemma_encoded_length("\r\n"@);
        }
        outside::put(&mut out, blank.as_bytes());
        if let Some(body) = self.body {
            let mut body = body;
            out.append(&mut body);
        }
        out
    }
}

/// A character takes at most four bytes.
proof fn lemma_encoded_length(chars: Seq<char>)
    ensures
        utf8::encode_utf8(chars).len() <= 4 * chars.len(),
    decreases chars.len(),
{
    if chars.len() > 0 {
        lemma_encoded_length(chars.drop_first());
    }
}

proof fn lemma_status_line_short(status: StatusCode)
    ensures
        utf8::encode_utf8("HTTP/1.1 "@ + status_text(status) + "\r\n"@).len() <= 400,
{
    reveal_strlit("HTTP/1.1 ");
    reveal_strlit("\r\n");
    reveal_strlit("200 OK");
    reveal_strlit("201 Created");
    reveal_strlit("400 Bad Request");
    reveal_strlit("404 Not Found");
    reveal_strlit("411 Length Required");
    reveal_strlit("500 Internal Server Error");
    lemma_encoded_length("HTTP/1.1 "@ + status_text(status) + "\r\n"@);
}

/// What `from` returns is in the contract of `from` itself.
impl vstd::std_specs::convert::FromSpecImpl<Response> for Vec<u8> {
    open spec fn obeys_from_spec() -> bool {
        false
    }

    open spec fn from_spec(response: Response) -> Vec<u8> {
        arbitrary()
    }
}

impl From<Response> for Vec<u8> {
    /// The bytes that the response is sent as.
    fn from(response: Response) -> (out: Vec<u8>)
        ensures
            out@ == response.bytes(),
    {
        response.into_bytes()
    }
}

}

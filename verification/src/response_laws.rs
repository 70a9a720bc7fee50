//! What holds of responses: the bytes that each of them is sent as.
use crate::encoding;
use crate::files;
use crate::files::TextKind;
use crate::request;
use crate::request::Refusal;
use crate::response;
use crate::response::{Html, ResponseBody, StatusCode, Svg};
use crate::text;
use vstd::prelude::*;
use vstd::utf8;

verus! {

/// The status line of a response, without its end.
pub open spec fn status_line(status: StatusCode) -> Seq<char> {
    match status {
        StatusCode::Success => "HTTP/1.1 200 OK"@,
        StatusCode::Created => "HTTP/1.1 201 Created"@,
        StatusCode::BadRequest => "HTTP/1.1 400 Bad Request"@,
        StatusCode::NotFound => "HTTP/1.1 404 Not Found"@,
        StatusCode::LengthRequired => "HTTP/1.1 411 Length Required"@,
        StatusCode::InternalServerError => "HTTP/1.1 500 Internal Server Error"@,
    }
}

proof fn lemma_status_line(status: StatusCode)
    ensures
        "HTTP/1.1 "@ + response::status_text(status) == status_line(status),
{
    reveal_strlit("HTTP/1.1 ");
    match status {
        StatusCode::Success => {
            reveal_strlit("200 OK");
            reveal_strlit("HTTP/1.1 200 OK");
        },
        StatusCode::Created => {
            reveal_strlit("201 Created");
            reveal_strlit("HTTP/1.1 201 Created");
        },
        StatusCode::BadRequest => {
            reveal_strlit("400 Bad Request");
            reveal_strlit("HTTP/1.1 400 Bad Request");
        },
        StatusCode::NotFound => {
            reveal_strlit("404 Not Found");
            reveal_strlit("HTTP/1.1 404 Not Found");
        },
        StatusCode::LengthRequired => {
            reveal_strlit("411 Length Required");
            reveal_strlit("HTTP/1.1 411 Length Required");
        },
        StatusCode::InternalServerError => {
            reveal_strlit("500 Internal Server Error");
            reveal_strlit("HTTP/1.1 500 Internal Server Error");
        },
    }
    assert("HTTP/1.1 "@ + response::status_text(status) =~= status_line(status));
}

/// A status is written as its code, a space and its reason phrase: what follows the version in the
/// status line.
pub proof fn law_status_text(status: StatusCode)
    ensures
        "HTTP/1.1 "@ + response::status_text(status) == status_line(status),
{
    lemma_status_line(status);
}

/// A response without a body is its status line and an empty line.
pub proof fn law_bare_response(status: StatusCode)
    ensures
        response::bare(status) == utf8::encode_utf8(status_line(status) + "\r\n\r\n"@),
        status is NotFound ==> response::bare(status) == utf8::encode_utf8(
            "HTTP/1.1 404 Not Found\r\n\r\n"@,
        ),
        status is BadRequest ==> response::bare(status) == utf8::encode_utf8(
            "HTTP/1.1 400 Bad Request\r\n\r\n"@,
        ),
        status is LengthRequired ==> response::bare(status) == utf8::encode_utf8(
            "HTTP/1.1 411 Length Required\r\n\r\n"@,
        ),
        status is InternalServerError ==> response::bare(status) == utf8::encode_utf8(
            "HTTP/1.1 500 Internal Server Error\r\n\r\n"@,
        ),
{
    lemma_status_line(status);
    reveal_strlit("\r\n");
    reveal_strlit("\r\n\r\n");
    let line = status_line(status) + "\r\n"@;
    assert(line + "\r\n"@ == status_line(status) + "\r\n\r\n"@);
    encoding::lemma_encode_concat(line, "\r\n"@);
    let none = Seq::<u8>::empty();
    assert(response::bare(status) == utf8::encode_utf8(line) + utf8::encode_utf8("\r\n"@));
    reveal_strlit("HTTP/1.1 404 Not Found");
    reveal_strlit("HTTP/1.1 404 Not Found\r\n\r\n");
    assert("HTTP/1.1 404 Not Found"@ + "\r\n\r\n"@ =~= "HTTP/1.1 404 Not Found\r\n\r\n"@);
    reveal_strlit("HTTP/1.1 400 Bad Request");
    reveal_strlit("HTTP/1.1 400 Bad Request\r\n\r\n");
    assert("HTTP/1.1 400 Bad Request"@ + "\r\n\r\n"@ =~= "HTTP/1.1 400 Bad Request\r\n\r\n"@);
    reveal_strlit("HTTP/1.1 411 Length Required");
    reveal_strlit("HTTP/1.1 411 Length Required\r\n\r\n");
    assert("HTTP/1.1 411 Length Required"@ + "\r\n\r\n"@
        =~= "HTTP/1.1 411 Length Required\r\n\r\n"@);
    reveal_strlit("HTTP/1.1 500 Internal Server Error");
    reveal_strlit("HTTP/1.1 500 Internal Server Error\r\n\r\n");
    assert("HTTP/1.1 500 Internal Server Error"@ + "\r\n\r\n"@
        =~= "HTTP/1.1 500 Internal Server Error\r\n\r\n"@);
}

/// A response with a body is its status line, the media type, the length of the body in bytes, an
/// empty line and then the body as it is.
pub proof fn law_full_response(status: StatusCode, media_type: Seq<char>, payload: Seq<u8>)
    ensures
        response::full(status, media_type, payload) == utf8::encode_utf8(
            status_line(status) + "\r\nContent-Type: "@ + media_type + "\r\nContent-Length: "@
                + text::decimal(payload.len()) + "\r\n\r\n"@,
        ) + payload,
{
    let length = text::decimal(payload.len());
    let announced = response::body_headers(media_type, payload.len());
    lemma_status_line(status);
    reveal_strlit("\r\n");
    reveal_strlit("\r\n\r\n");
    reveal_strlit("\r\nContent-Type: ");
    reveal_strlit("\r\nContent-Length: ");
    reveal_strlit("Content-Type");
    reveal_strlit("Content-Length");
    reveal_strlit(": ");
    let l0 = status_line(status) + "\r\n"@;
    let l1 = response::header_line(announced[0]);
    let l2 = response::header_line(announced[1]);
    let head = l0 + l1 + l2 + "\r\n"@;
    assert("\r\nContent-Type: "@ =~= "\r\n"@ + "Content-Type"@ + ": "@);
    assert("\r\nContent-Length: "@ =~= "\r\n"@ + "Content-Length"@ + ": "@);
    assert("\r\n\r\n"@ =~= "\r\n"@ + "\r\n"@);
    assert(head =~= status_line(status) + "\r\nContent-Type: "@ + media_type
        + "\r\nContent-Length: "@ + length + "\r\n\r\n"@);
    encoding::lemma_encode_concat(l0, l1);
    encoding::lemma_encode_concat(l0 + l1, l2);
    encoding::lemma_encode_concat(l0 + l1 + l2, "\r\n"@);
    reveal_with_fuel(response::header_lines, 3);
    assert(announced.drop_last().drop_last() == Seq::<(Seq<char>, Seq<char>)>::empty());
    assert(announced.drop_last().last() == announced[0]);
    assert(response::header_lines(announced) == utf8::encode_utf8(l1) + utf8::encode_utf8(l2));
    assert(response::full(status, media_type, payload) == utf8::encode_utf8(l0) + (
    utf8::encode_utf8(l1) + utf8::encode_utf8(l2)) + utf8::encode_utf8("\r\n"@) + payload);
    assert(utf8::encode_utf8(l0) + (utf8::encode_utf8(l1) + utf8::encode_utf8(l2))
        == utf8::encode_utf8(l0) + utf8::encode_utf8(l1) + utf8::encode_utf8(l2));
}

/// The body of a text is that text in UTF-8, whatever characters it holds, and the body of bytes
/// is those bytes.
pub proof fn law_bodies_carry_their_contents(html: Html, svg: Svg, plain: String, data: Vec<u8>)
    ensures
        utf8::valid_utf8(html.payload()),
        utf8::decode_utf8(html.payload()) == html.0@,
        utf8::valid_utf8(svg.payload()),
        utf8::decode_utf8(svg.payload()) == svg.0@,
        utf8::valid_utf8(plain.payload()),
        utf8::decode_utf8(plain.payload()) == plain@,
        data.payload() == data@,
{
    utf8::encode_utf8_valid_utf8(html.0@);
    utf8::encode_utf8_decode_utf8(html.0@);
    utf8::encode_utf8_valid_utf8(svg.0@);
    utf8::encode_utf8_decode_utf8(svg.0@);
    utf8::encode_utf8_valid_utf8(plain@);
    utf8::encode_utf8_decode_utf8(plain@);
}

/// Each kind of body has its media type.
pub proof fn law_bodies_have_their_media_type(html: Html, svg: Svg, plain: String, data: Vec<u8>)
    ensures
        html.media_type() == "text/html"@,
        svg.media_type() == "image/svg+xml"@,
        plain.media_type() == "text/plain"@,
        data.media_type() == "application/octet-stream"@,
        files::media_type(TextKind::Html) == "text/html"@,
        files::media_type(TextKind::Svg) == "image/svg+xml"@,
{
}

/// Refusals that the client can mend have a status: 411 where a length is missing, 400 otherwise.
pub proof fn law_refusals_have_their_status(refusal: Refusal)
    ensures
        request::refusal_status(refusal) == match refusal {
            Refusal::LengthRequired => Some(StatusCode::LengthRequired),
            Refusal::InvalidLength | Refusal::ExcessiveLength => None::<StatusCode>,
            _ => Some(StatusCode::BadRequest),
        },
{
}

}

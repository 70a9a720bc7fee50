//! What holds across the modules: what is written as a request reads back as that request, and the
//! headers of a response read back as they were written.
use crate::encoding;
use crate::request;
use crate::request::{Refusal, RequestView};
use crate::response;
use crate::response::{Html, ResponseBody, StatusCode, Svg};
use crate::text;
use vstd::prelude::*;
use vstd::utf8;

verus! {

/// A text that can stand in a request line: it has characters, and no white space.
pub open spec fn is_word(s: Seq<char>) -> bool {
    s.len() > 0 && forall|i: int| 0 <= i < s.len() ==> !text::is_white(#[trigger] s[i])
}

/// A text that can be the name or the value of a header: one line, without white space around it,
/// in which `": "` does not occur.
pub open spec fn is_header_text(s: Seq<char>) -> bool {
    &&& text::trimmed(s) == s
    &&& text::find(s, ": "@) is None
    &&& forall|i: int| 0 <= i < s.len() ==> #[trigger] s[i] != '\n'
}

/// Headers whose names and values can be written.
pub open spec fn are_headers(headers: Seq<(Seq<char>, Seq<char>)>) -> bool {
    forall|i: int|
        0 <= i < headers.len() ==> is_header_text((#[trigger] headers[i]).0) && is_header_text(
            headers[i].1,
        )
}

/// `base` with headers on top of it, the later over the earlier.
pub open spec fn header_map(
    base: Map<Seq<char>, Seq<char>>,
    headers: Seq<(Seq<char>, Seq<char>)>,
) -> Map<Seq<char>, Seq<char>>
    decreases headers.len(),
{
    if headers.len() == 0 {
        base
    } else {
        header_map(base.insert(headers[0].0, headers[0].1), headers.skip(1))
    }
}

/// A request line.
pub open spec fn request_line(
    method: Seq<char>,
    target: Seq<char>,
    http_version: Seq<char>,
) -> Seq<char> {
    method + " "@ + target + " "@ + http_version + "\r\n"@
}

/// The bytes of a request.
pub open spec fn request_bytes(
    method: Seq<char>,
    target: Seq<char>,
    http_version: Seq<char>,
    headers: Seq<(Seq<char>, Seq<char>)>,
    body: Seq<u8>,
) -> Seq<u8> {
    utf8::encode_utf8(request_line(method, target, http_version)) + (response::header_lines(headers)
        + (utf8::encode_utf8("\r\n"@) + body))
}

proof fn lemma_crlf()
    ensures
        "\r\n"@ == seq!['\r', '\n'],
        utf8::encode_utf8("\r\n"@) == seq![0x0du8, 0x0au8],
        utf8::encode_utf8("\r\n"@) == request::blank_line(),
        utf8::valid_utf8(utf8::encode_utf8("\r\n"@)),
        utf8::decode_utf8(utf8::encode_utf8("\r\n"@)) == "\r\n"@,
{
    reveal_strlit("\r\n");
    assert("\r\n"@ == seq!['\r', '\n']);
    assert(utf8::is_ascii_chars("\r\n"@));
    utf8::is_ascii_chars_encode_utf8("\r\n"@);
    utf8::encode_utf8_valid_utf8("\r\n"@);
    utf8::encode_utf8_decode_utf8("\r\n"@);
    let e = utf8::encode_utf8("\r\n"@);
    assert("\r\n"@[0] as u8 == e[0]);
    assert("\r\n"@[1] as u8 == e[1]);
    assert(e == seq![0x0du8, 0x0au8]);
}

/// A line of text is read as one line, and as that text.
proof fn lemma_line_reads_back(front: Seq<char>, rest: Seq<u8>)
    requires
        forall|i: int| 0 <= i < front.len() ==> #[trigger] front[i] != '\n',
    ensures
        ({
            let line = utf8::encode_utf8(front + "\r\n"@);
            &&& request::first_line(line + rest) == line
            &&& (line + rest).skip(line.len() as int) == rest
            &&& utf8::valid_utf8(line)
            &&& utf8::decode_utf8(line) == front + "\r\n"@
            &&& front.len() > 0 ==> line != request::blank_line()
        }),
{
    let text = front + "\r\n"@;
    let line = utf8::encode_utf8(text);
    let head = utf8::encode_utf8(front);
    lemma_crlf();
    encoding::lemma_encode_concat(front, "\r\n"@);
    encoding::lemma_encode_lacks(front, '\n');
    utf8::encode_utf8_valid_utf8(text);
    utf8::encode_utf8_decode_utf8(text);
    assert(line == head + seq![0x0du8, 0x0au8]);
    let whole = line + rest;
    let n = head.len() as int;
    assert(whole[n + 1] == 0x0a);
    assert(whole.contains(0x0a));
    whole.index_of_first_ensures(0x0a);
    let i = whole.index_of_first(0x0a)->0;
    if i < n {
        assert(whole[i] == head[i]);
    } else if i == n {
        assert(whole[i] == 0x0d);
    }
    assert(i == n + 1);
    assert(whole.take(i + 1) == line);
    assert(whole.skip(line.len() as int) == rest);
    if line == request::blank_line() {
        assert(text == "\r\n"@);
        assert(text.len() == front.len() + 2);
    }
}

/// The pieces of a request line between its white space.
proof fn lemma_request_line_pieces(
    method: Seq<char>,
    target: Seq<char>,
    http_version: Seq<char>,
)
    requires
        is_word(method),
        is_word(target),
        is_word(http_version),
    ensures
        text::split_by(
            request_line(method, target, http_version),
            |c: char| text::is_white(c),
        ) == seq![method, target, http_version, Seq::empty(), Seq::empty()],
{
    let sep = |c: char| text::is_white(c);
    let none = Seq::<char>::empty();
    reveal_strlit(" ");
    lemma_crlf();
    assert(" "@ == seq![' ']);
    let line = request_line(method, target, http_version);
    let from_cr = none.push('\n') + none;
    let from_version = http_version.push('\r') + from_cr;
    let from_target = target.push(' ') + from_version;
    assert(line == method.push(' ') + from_target);
    text::lemma_split_concat(method, ' ', from_target, sep);
    text::lemma_split_concat(target, ' ', from_version, sep);
    text::lemma_split_concat(http_version, '\r', from_cr, sep);
    text::lemma_split_concat(none, '\n', none, sep);
    text::lemma_split_by_one(method, sep);
    text::lemma_split_by_one(target, sep);
    text::lemma_split_by_one(http_version, sep);
    text::lemma_split_by_one(none, sep);
    assert(text::split_by(line, sep) == seq![method] + (seq![target] + (seq![http_version] + (
    seq![none] + seq![none]))));
}

/// Leaving out the two empty ones of five pieces.
proof fn lemma_full_pieces(a: Seq<char>, b: Seq<char>, c: Seq<char>)
    requires
        a.len() > 0,
        b.len() > 0,
        c.len() > 0,
    ensures
        seq![a, b, c, Seq::empty(), Seq::empty()].filter(|w: Seq<char>| w.len() > 0) == seq![
            a,
            b,
            c,
        ],
{
    let full = |w: Seq<char>| w.len() > 0;
    let none = Seq::<char>::empty();
    let p0 = Seq::<Seq<char>>::empty();
    let p1 = p0.push(a);
    let p2 = p1.push(b);
    let p3 = p2.push(c);
    let p4 = p3.push(none);
    assert(p0.filter(full) == p0) by {
        reveal(Seq::filter);
    }
    text::lemma_filter_push(p0, a, full);
    text::lemma_filter_push(p1, b, full);
    text::lemma_filter_push(p2, c, full);
    text::lemma_filter_push(p3, none, full);
    text::lemma_filter_push(p4, none, full);
    assert(p4.push(none) == seq![a, b, c, none, none]);
    assert(p3 == seq![a, b, c]);
}

/// The words of a request line are its three parts.
proof fn lemma_request_line_words(
    method: Seq<char>,
    target: Seq<char>,
    http_version: Seq<char>,
)
    requires
        is_word(method),
        is_word(target),
        is_word(http_version),
    ensures
        text::words(request_line(method, target, http_version)) == seq![
            method,
            target,
            http_version,
        ],
{
    lemma_request_line_pieces(method, target, http_version);
    lemma_full_pieces(method, target, http_version);
}

/// Where `": "` occurs in a text.
proof fn lemma_colon_space(s: Seq<char>, j: int)
    requires
        0 <= j <= s.len(),
    ensures
        ": "@.len() == 2,
        ": "@ == seq![':', ' '],
        ": "@.is_prefix_of(s.skip(j)) == (j + 1 < s.len() && s[j] == ':' && s[j + 1] == ' '),
{
    reveal_strlit(": ");
    assert(": "@ == seq![':', ' ']);
    let rest = s.skip(j);
    if j + 1 < s.len() {
        assert(rest.subrange(0, 2) == seq![s[j], s[j + 1]]);
        if s[j] == ':' && s[j + 1] == ' ' {
            assert(": "@ == rest.subrange(0, 2));
        } else if ": "@.is_prefix_of(rest) {
            assert(rest.subrange(0, 2)[0] == ':');
            assert(rest.subrange(0, 2)[1] == ' ');
        }
    }
}

/// Where `": "` does not occur, no colon has a space after it.
proof fn lemma_no_colon_space(s: Seq<char>)
    requires
        text::find(s, ": "@) is None,
    ensures
        forall|j: int| 0 <= j && j + 1 < s.len() ==> !(#[trigger] s[j] == ':' && s[j + 1] == ' '),
{
    text::lemma_find(s, ": "@);
    assert forall|j: int| 0 <= j && j + 1 < s.len() implies !(#[trigger] s[j] == ':' && s[j + 1]
        == ' ') by {
        lemma_colon_space(s, j);
    }
}

proof fn lemma_trim_shortens(s: Seq<char>)
    ensures
        text::trim_start(s).len() <= s.len(),
        text::trim_end(s).len() <= s.len(),
    decreases s.len(),
{
    if s.len() > 0 {
        lemma_trim_shortens(s.skip(1));
        lemma_trim_shortens(s.drop_last());
    }
}

/// The end of a line is trimmed off.
proof fn lemma_trim_line_end(value: Seq<char>)
    requires
        text::trimmed(value) == value,
    ensures
        text::trimmed(value + "\r\n"@) == value,
{
    lemma_crlf();
    let line = value + "\r\n"@;
    let cut = line.drop_last();
    assert(cut.drop_last() == value);
    if value.len() == 0 {
        reveal_with_fuel(text::trim_start, 3);
        reveal_with_fuel(text::trim_end, 2);
        assert(line.skip(1).skip(1) == value);
    } else {
        assert(!text::is_white(value[0])) by {
            if text::is_white(value[0]) {
                lemma_trim_shortens(value.skip(1));
                lemma_trim_shortens(text::trim_start(value.skip(1)));
            }
        }
        assert(text::trim_start(value) == value);
        assert(text::trim_start(line) == line);
        assert(!text::is_white(value.last())) by {
            if text::is_white(value.last()) {
                lemma_trim_shortens(value.drop_last());
            }
        }
        reveal_with_fuel(text::trim_end, 3);
    }
}

/// The name of a header ends at the first `": "` of its line.
proof fn lemma_name_ends(name: Seq<char>, rest: Seq<char>)
    requires
        text::find(name, ": "@) is None,
    ensures
        text::find(name + ": "@ + rest, ": "@) == Some(name.len() as int),
{
    let line = name + ": "@ + rest;
    let n = name.len() as int;
    lemma_colon_space(line, n);
    lemma_no_colon_space(name);
    assert forall|j: int| 0 <= j < n implies !": "@.is_prefix_of(#[trigger] line.skip(j)) by {
        lemma_colon_space(line, j);
        assert(line[j] == name[j]);
        if j + 1 < n {
            assert(line[j + 1] == name[j + 1]);
        } else {
            assert(line[j + 1] == ':');
        }
    }
    assert(line.skip(0) == line);
    text::lemma_first_occurrence(line, ": "@, 0, n);
}

/// The value of a header and the end of its line are one piece.
proof fn lemma_value_is_one_piece(value: Seq<char>)
    requires
        text::find(value, ": "@) is None,
    ensures
        text::split_pattern(value + "\r\n"@, ": "@) == seq![value + "\r\n"@],
{
    let rest = value + "\r\n"@;
    lemma_crlf();
    lemma_no_colon_space(value);
    assert forall|j: int| 0 <= j < rest.len() implies !": "@.is_prefix_of(#[trigger] rest.skip(j)) by {
        lemma_colon_space(rest, j);
        if j < value.len() {
            assert(rest[j] == value[j]);
            if j + 1 < value.len() {
                assert(rest[j + 1] == value[j + 1]);
            }
        }
    }
    lemma_colon_space(rest, 0);
    assert(rest.skip(0) == rest);
    text::lemma_no_occurrence(rest, ": "@, 0);
}

/// A header line holds the header that it was written for.
pub proof fn law_header_line_reads_back(
    headers: Map<Seq<char>, Seq<char>>,
    header: (Seq<char>, Seq<char>),
)
    requires
        is_header_text(header.0),
        is_header_text(header.1),
    ensures
        request::with_header_line(headers, response::header_line(header)) == headers.insert(
            header.0,
            header.1,
        ),
{
    let (name, value) = header;
    let line = response::header_line(header);
    let rest = value + "\r\n"@;
    let n = name.len() as int;
    lemma_crlf();
    lemma_colon_space(name, 0);
    assert(line == name + ": "@ + rest);
    lemma_name_ends(name, rest);
    lemma_value_is_one_piece(value);
    assert(line.take(n) == name);
    assert(line.skip(n + 2) == rest);
    let parts = text::split_pattern(line, ": "@);
    assert(parts == seq![name] + seq![rest]);
    assert(parts.last() == rest);
    lemma_trim_line_end(value);
}

proof fn lemma_header_lines_front(headers: Seq<(Seq<char>, Seq<char>)>)
    requires
        headers.len() > 0,
    ensures
        response::header_lines(headers) == utf8::encode_utf8(response::header_line(headers[0]))
            + response::header_lines(headers.skip(1)),
    decreases headers.len(),
{
    let none = Seq::<(Seq<char>, Seq<char>)>::empty();
    if headers.len() == 1 {
        assert(headers.drop_last() == none);
        assert(headers.skip(1) == none);
    } else {
        lemma_header_lines_front(headers.drop_last());
        assert(headers.drop_last().skip(1) == headers.skip(1).drop_last());
    }
}

/// Header lines and a blank line read back as the headers that they were written for.
pub proof fn law_headers_read_back(
    base: Map<Seq<char>, Seq<char>>,
    headers: Seq<(Seq<char>, Seq<char>)>,
    rest: Seq<u8>,
)
    requires
        are_headers(headers),
    ensures
        request::header_block(
            response::header_lines(headers) + (utf8::encode_utf8("\r\n"@) + rest),
            base,
        ) == Some((header_map(base, headers), rest)),
    decreases headers.len(),
{
    let after = utf8::encode_utf8("\r\n"@) + rest;
    let block = response::header_lines(headers) + after;
    lemma_crlf();
    if headers.len() == 0 {
        let none = Seq::<char>::empty();
        assert(none + "\r\n"@ == "\r\n"@);
        lemma_line_reads_back(none, rest);
        assert(block == after);
    } else {
        let (name, value) = headers[0];
        let front = name + ": "@ + value;
        let line = utf8::encode_utf8(response::header_line(headers[0]));
        let remaining = response::header_lines(headers.skip(1)) + after;
        lemma_header_lines_front(headers);
        lemma_colon_space(name, 0);
        assert(response::header_line(headers[0]) == front + "\r\n"@);
        assert(block == line + remaining);
        assert forall|i: int| 0 <= i < front.len() implies #[trigger] front[i] != '\n' by {
            if i < name.len() {
                assert(front[i] == name[i]);
            } else if i >= name.len() + 2 {
                assert(front[i] == value[i - name.len() - 2]);
            }
        }
        lemma_line_reads_back(front, remaining);
        law_header_line_reads_back(base, headers[0]);
        assert(are_headers(headers.skip(1))) by {
            assert forall|i: int| 0 <= i < headers.skip(1).len() implies is_header_text(
                (#[trigger] headers.skip(1)[i]).0,
            ) && is_header_text(headers.skip(1)[i].1) by {
                assert(headers.skip(1)[i] == headers[i + 1]);
            }
        }
        law_headers_read_back(base.insert(name, value), headers.skip(1), rest);
    }
}

/// What is written as a request is read as its request line, its headers and what follows them.
pub proof fn law_request_reads_back(
    method: Seq<char>,
    target: Seq<char>,
    http_version: Seq<char>,
    headers: Seq<(Seq<char>, Seq<char>)>,
    rest: Seq<u8>,
)
    requires
        is_word(method),
        is_word(target),
        is_word(http_version),
        are_headers(headers),
    ensures
        request::parsed(request_bytes(method, target, http_version, headers, rest))
            == request::assembled(
            seq![method, target, http_version],
            header_map(Map::empty(), headers),
            rest,
        ),
{
    let front = method + " "@ + target + " "@ + http_version;
    let after = response::header_lines(headers) + (utf8::encode_utf8("\r\n"@) + rest);
    reveal_strlit(" ");
    assert(" "@ == seq![' ']);
    assert(request_line(method, target, http_version) == front + "\r\n"@);
    assert forall|i: int| 0 <= i < front.len() implies #[trigger] front[i] != '\n' by {
        let m = method.len();
        let t = target.len();
        if i < m {
            assert(front[i] == method[i]);
        } else if m < i < m + 1 + t {
            assert(front[i] == target[i - m - 1]);
        } else if i > m + 1 + t {
            assert(front[i] == http_version[i - m - t - 2]);
        }
    }
    lemma_line_reads_back(front, after);
    lemma_request_line_words(method, target, http_version);
    law_headers_read_back(Map::empty(), headers, rest);
}

/// A request whose headers give the length of its body, or that has neither, reads back as it was
/// written.
pub proof fn law_whole_request_reads_back(
    method: Seq<char>,
    target: Seq<char>,
    http_version: Seq<char>,
    headers: Seq<(Seq<char>, Seq<char>)>,
    body: Seq<u8>,
)
    requires
        is_word(method),
        is_word(target),
        is_word(http_version),
        are_headers(headers),
        request::declared_length(header_map(Map::empty(), headers)) == Some(body.len()),
    ensures
        request::parsed(request_bytes(method, target, http_version, headers, body)) == Ok::<
            RequestView,
            Refusal,
        >(
            RequestView {
                method,
                target,
                http_version,
                headers: header_map(Map::empty(), headers),
                body,
            },
        ),
{
    law_request_reads_back(method, target, http_version, headers, body);
    assert(body.take(body.len() as int) == body);
}

/// `header_map` of headers with one more.
proof fn lemma_header_map_push(
    base: Map<Seq<char>, Seq<char>>,
    headers: Seq<(Seq<char>, Seq<char>)>,
    last: (Seq<char>, Seq<char>),
)
    ensures
        header_map(base, headers.push(last)) == header_map(base, headers).insert(last.0, last.1),
    decreases headers.len(),
{
    let all = headers.push(last);
    if headers.len() == 0 {
        assert(all.skip(1) == Seq::<(Seq<char>, Seq<char>)>::empty());
        reveal_with_fuel(header_map, 2);
    } else {
        assert(all.skip(1) == headers.skip(1).push(last));
        lemma_header_map_push(
            base.insert(headers[0].0, headers[0].1),
            headers.skip(1),
            last,
        );
    }
}

/// Where no two headers have the same name, the map of them holds each of them and nothing else.
pub proof fn law_header_map_holds_the_headers(headers: Seq<(Seq<char>, Seq<char>)>)
    requires
        forall|i: int, j: int|
            0 <= i < j < headers.len() ==> (#[trigger] headers[i]).0 != (#[trigger] headers[j]).0,
    ensures
        forall|i: int|
            0 <= i < headers.len() ==> header_map(Map::empty(), headers).contains_key(
                (#[trigger] headers[i]).0,
            ) && header_map(Map::empty(), headers)[headers[i].0] == headers[i].1,
        forall|name: Seq<char>| #[trigger]
            header_map(Map::empty(), headers).contains_key(name) ==> exists|i: int|
                0 <= i < headers.len() && (#[trigger] headers[i]).0 == name,
    decreases headers.len(),
{
    if headers.len() > 0 {
        let front = headers.drop_last();
        let last = headers.last();
        let before = header_map(Map::empty(), front);
        let map = header_map(Map::empty(), headers);
        law_header_map_holds_the_headers(front);
        lemma_header_map_push(Map::empty(), front, last);
        assert(front.push(last) == headers);
        assert forall|i: int| 0 <= i < headers.len() implies map.contains_key(
            (#[trigger] headers[i]).0,
        ) && map[headers[i].0] == headers[i].1 by {
            if i < front.len() {
                assert(front[i] == headers[i]);
                assert(headers[i].0 != headers[headers.len() - 1].0);
            }
        }
        assert forall|name: Seq<char>| #[trigger] map.contains_key(name) implies exists|i: int|
            0 <= i < headers.len() && (#[trigger] headers[i]).0 == name by {
            if before.contains_key(name) {
                let i = choose|i: int| 0 <= i < front.len() && (#[trigger] front[i]).0 == name;
                assert(headers[i].0 == name);
            } else {
                assert(headers[headers.len() - 1].0 == name);
            }
        }
    }
}

/// Reading undoes writing: the bytes of a request whose last header gives the length of its body
/// hold that request, whatever its body.
pub proof fn law_written_request_reads_back(
    method: Seq<char>,
    target: Seq<char>,
    http_version: Seq<char>,
    headers: Seq<(Seq<char>, Seq<char>)>,
    body: Seq<u8>,
    req_bytes: Vec<u8>,
)
    requires
        is_word(method),
        is_word(target),
        is_word(http_version),
        are_headers(headers),
        req_bytes@ == request_bytes(
            method,
            target,
            http_version,
            headers.push(("Content-Length"@, text::decimal(body.len()))),
            body,
        ),
    ensures
        request::parsed(req_bytes@) == Ok::<RequestView, Refusal>(
            RequestView {
                method,
                target,
                http_version,
                headers: header_map(Map::empty(), headers).insert(
                    "Content-Length"@,
                    text::decimal(body.len()),
                ),
                body,
            },
        ),
{
    let length = ("Content-Length"@, text::decimal(body.len()));
    let all = headers.push(length);
    assert(body.len() <= req_bytes.len());
    lemma_length_is_a_header(body.len());
    assert(are_headers(all)) by {
        assert forall|i: int| 0 <= i < all.len() implies is_header_text((#[trigger] all[i]).0)
            && is_header_text(all[i].1) by {
            if i < headers.len() {
                assert(all[i] == headers[i]);
            }
        }
    }
    lemma_header_map_push(Map::empty(), headers, length);
    text::law_decimal_reads_back(body.len());
    law_whole_request_reads_back(method, target, http_version, all, body);
}

/// A body that the headers give no length for, or the length zero, is refused, and the refusal
/// asks for the length.
pub proof fn law_body_without_length_is_refused(
    method: Seq<char>,
    target: Seq<char>,
    http_version: Seq<char>,
    headers: Seq<(Seq<char>, Seq<char>)>,
    body: Seq<u8>,
)
    requires
        is_word(method),
        is_word(target),
        is_word(http_version),
        are_headers(headers),
        request::declared_length(header_map(Map::empty(), headers)) == Some(0nat),
        body.len() > 0,
    ensures
        request::parsed(request_bytes(method, target, http_version, headers, body)) == Err::<
            RequestView,
            Refusal,
        >(Refusal::LengthRequired),
{
    law_request_reads_back(method, target, http_version, headers, body);
}

/// A body that ends before the length that the headers give for it is refused; the refusal tells
/// a length that no buffer can hold from one that the body falls short of.
pub proof fn law_short_body_is_refused(
    method: Seq<char>,
    target: Seq<char>,
    http_version: Seq<char>,
    headers: Seq<(Seq<char>, Seq<char>)>,
    body: Seq<u8>,
    length: nat,
)
    requires
        is_word(method),
        is_word(target),
        is_word(http_version),
        are_headers(headers),
        request::declared_length(header_map(Map::empty(), headers)) == Some(length),
        body.len() < length,
    ensures
        request::parsed(request_bytes(method, target, http_version, headers, body)) == Err::<
            RequestView,
            Refusal,
        >(
            if length > isize::MAX {
                Refusal::ExcessiveLength
            } else {
                Refusal::ShortBody
            },
        ),
{
    law_request_reads_back(method, target, http_version, headers, body);
}

/// What follows a body of the length that the headers give for it is left alone.
pub proof fn law_bytes_after_body_are_left(
    method: Seq<char>,
    target: Seq<char>,
    http_version: Seq<char>,
    headers: Seq<(Seq<char>, Seq<char>)>,
    body: Seq<u8>,
    more: Seq<u8>,
)
    requires
        is_word(method),
        is_word(target),
        is_word(http_version),
        are_headers(headers),
        request::declared_length(header_map(Map::empty(), headers)) == Some(body.len()),
        body.len() > 0,
    ensures
        request::parsed(request_bytes(method, target, http_version, headers, body + more))
            == request::parsed(request_bytes(method, target, http_version, headers, body)),
{
    law_request_reads_back(method, target, http_version, headers, body);
    law_request_reads_back(method, target, http_version, headers, body + more);
    assert((body + more).take(body.len() as int) == body.take(body.len() as int));
}

/// A response with a body reads back: after its status line come the two headers of the body and
/// then the body, and the length that is announced is the length of the body.
pub proof fn law_response_reads_back(
    status: StatusCode,
    media_type: Seq<char>,
    payload: Seq<u8>,
)
    requires
        is_header_text(media_type),
        payload.len() <= usize::MAX,
    ensures
        ({
            let bytes = response::full(status, media_type, payload);
            let line = request::first_line(bytes);
            let headers = map![
                "Content-Type"@ => media_type,
                "Content-Length"@ => text::decimal(payload.len())
            ];
            &&& line == utf8::encode_utf8(
                "HTTP/1.1 "@ + response::status_text(status) + "\r\n"@,
            )
            &&& request::header_block(bytes.skip(line.len() as int), Map::empty()) == Some(
                (headers, payload),
            )
            &&& request::declared_length(headers) == Some(payload.len())
        }),
{
    let bytes = response::full(status, media_type, payload);
    let front = "HTTP/1.1 "@ + response::status_text(status);
    let line = utf8::encode_utf8(front + "\r\n"@);
    let announced = response::body_headers(media_type, payload.len());
    let after = response::header_lines(announced) + (utf8::encode_utf8("\r\n"@) + payload);
    assert(bytes == line + after);
    lemma_status_line_is_one_line(status);
    lemma_line_reads_back(front, after);
    lemma_body_headers_are_headers(media_type, payload.len());
    law_headers_read_back(Map::empty(), announced, payload);
    let m0 = Map::<Seq<char>, Seq<char>>::empty();
    let m1 = m0.insert("Content-Type"@, media_type);
    let m2 = m1.insert("Content-Length"@, text::decimal(payload.len()));
    reveal_with_fuel(header_map, 3);
    assert(announced.skip(1)[0] == announced[1]);
    assert(header_map(m0, announced) == m2);
    reveal_strlit("Content-Type");
    reveal_strlit("Content-Length");
    assert("Content-Type"@.len() != "Content-Length"@.len());
    assert(m2 == map![
        "Content-Type"@ => media_type,
        "Content-Length"@ => text::decimal(payload.len())
    ]);
    text::law_decimal_reads_back(payload.len());
}

/// What ends the head of a message: the end of its last line, and an empty line.
pub open spec fn head_end() -> Seq<u8> {
    seq![0x0d, 0x0a, 0x0d, 0x0a]
}

/// Whether `payload` is what follows the head of a message.
pub open spec fn follows_head(bytes: Seq<u8>, payload: Seq<u8>) -> bool {
    text::find(bytes, head_end()) matches Some(i) && bytes.skip(i + head_end().len()) == payload
}

/// Where a head ends in bytes.
proof fn lemma_head_end(s: Seq<u8>, j: int)
    requires
        0 <= j <= s.len(),
    ensures
        head_end().is_prefix_of(s.skip(j)) == (j + 3 < s.len() && s[j] == 0x0d && s[j + 1] == 0x0a
            && s[j + 2] == 0x0d && s[j + 3] == 0x0a),
{
    let rest = s.skip(j);
    if j + 3 < s.len() {
        let start = rest.subrange(0, 4);
        assert(start == seq![s[j], s[j + 1], s[j + 2], s[j + 3]]);
        if head_end().is_prefix_of(rest) {
            assert(start[0] == 0x0d && start[1] == 0x0a && start[2] == 0x0d && start[3] == 0x0a);
        } else if s[j] == 0x0d && s[j + 1] == 0x0a && s[j + 2] == 0x0d && s[j + 3] == 0x0a {
            assert(head_end() == start);
        }
    }
}

/// Whether bytes are one line with its end, which holds no other line feed.
spec fn is_line(line: Seq<u8>) -> bool {
    &&& line.len() >= 2
    &&& line[line.len() - 2] == 0x0d
    &&& line[line.len() - 1] == 0x0a
    &&& forall|j: int| 0 <= j < line.len() - 1 ==> #[trigger] line[j] != 0x0a
}

/// No head ends within a line.
proof fn lemma_no_head_end_in_line(line: Seq<u8>, rest: Seq<u8>, j: int)
    requires
        is_line(line),
        0 <= j < line.len(),
        j == line.len() - 2 ==> !request::blank_line().is_prefix_of(rest),
    ensures
        !head_end().is_prefix_of((line + rest).skip(j)),
{
    let whole = line + rest;
    let n = line.len() as int;
    lemma_head_end(whole, j);
    if j < n - 2 {
        assert(whole[j + 1] == line[j + 1]);
    } else if j == n - 1 {
        assert(whole[j] == line[j]);
    } else if rest.len() >= 2 {
        assert(whole[n] == rest[0]);
        assert(whole[n + 1] == rest[1]);
        if rest[0] == 0x0d && rest[1] == 0x0a {
            assert(rest.subrange(0, 2) == request::blank_line());
        }
    }
}

/// A line ends the head where an empty line comes next.
proof fn lemma_head_stops(line: Seq<u8>, rest: Seq<u8>)
    requires
        is_line(line),
        request::blank_line().is_prefix_of(rest),
    ensures
        text::find(line + rest, head_end()) == Some(line.len() - 2),
{
    let whole = line + rest;
    let n = line.len() as int;
    let start = rest.subrange(0, 2);
    assert(start == request::blank_line());
    assert(start[0] == rest[0]);
    assert(start[1] == rest[1]);
    assert(whole[n] == rest[0]);
    assert(whole[n + 1] == rest[1]);
    lemma_head_end(whole, n - 2);
    assert forall|j: int| 0 <= j < n - 2 implies !head_end().is_prefix_of(
        #[trigger] whole.skip(j),
    ) by {
        lemma_no_head_end_in_line(line, rest, j);
    }
    assert(whole.skip(0) == whole);
    text::lemma_first_occurrence(whole, head_end(), 0, n - 2);
}

/// Where no empty line comes next, the head ends where it does in what comes after the line.
proof fn lemma_head_goes_on(line: Seq<u8>, rest: Seq<u8>)
    requires
        is_line(line),
        !request::blank_line().is_prefix_of(rest),
        text::find(rest, head_end()) is Some,
    ensures
        text::find(line + rest, head_end()) == Some(
            line.len() + text::find(rest, head_end())->0,
        ),
{
    let whole = line + rest;
    let n = line.len() as int;
    let i = text::find(rest, head_end())->0;
    text::lemma_find(rest, head_end());
    assert forall|j: int| 0 <= j < n + i implies !head_end().is_prefix_of(
        #[trigger] whole.skip(j),
    ) by {
        if j >= n {
            assert(whole.skip(j) == rest.skip(j - n));
        } else {
            lemma_no_head_end_in_line(line, rest, j);
        }
    }
    assert(whole.skip(n + i) == rest.skip(i));
    assert(whole.skip(0) == whole);
    text::lemma_first_occurrence(whole, head_end(), 0, n + i);
}

/// A line of text is a line, and not the empty one where there is text.
proof fn lemma_text_is_line(front: Seq<char>, rest: Seq<u8>)
    requires
        forall|i: int| 0 <= i < front.len() ==> #[trigger] front[i] != '\n',
    ensures
        is_line(utf8::encode_utf8(front + "\r\n"@)),
        front.len() > 0 ==> !request::blank_line().is_prefix_of(
            utf8::encode_utf8(front + "\r\n"@) + rest,
        ),
{
    let line = utf8::encode_utf8(front + "\r\n"@);
    let head = utf8::encode_utf8(front);
    lemma_crlf();
    encoding::lemma_encode_concat(front, "\r\n"@);
    encoding::lemma_encode_lacks(front, '\n');
    assert(line == head + seq![0x0du8, 0x0au8]);
    assert forall|j: int| 0 <= j < line.len() - 1 implies #[trigger] line[j] != 0x0a by {
        if j < head.len() {
            assert(line[j] == head[j]);
        }
    }
    if front.len() > 0 {
        assert(head.len() > 0) by {
            assert(utf8::encode_scalar(front[0] as u32).len() > 0);
        }
        let start = (line + rest).subrange(0, 2);
        assert(start[1] == line[1]);
    }
}

/// The first empty line of a response ends its head, and what follows it is the body: nothing
/// where the response has none.
pub proof fn law_body_follows_head(status: StatusCode, media_type: Seq<char>, payload: Seq<u8>)
    requires
        forall|i: int| 0 <= i < media_type.len() ==> #[trigger] media_type[i] != '\n',
    ensures
        follows_head(response::full(status, media_type, payload), payload),
        follows_head(response::bare(status), Seq::empty()),
{
    let front = "HTTP/1.1 "@ + response::status_text(status);
    let line = utf8::encode_utf8(front + "\r\n"@);
    let blank = utf8::encode_utf8("\r\n"@);
    lemma_crlf();
    lemma_status_line_is_one_line(status);
    lemma_text_is_line(front, blank);
    lemma_head_stops(line, blank);
    let bare = response::bare(status);
    assert(bare == line + blank);
    assert(bare.skip((line.len() + 2) as int) == Seq::<u8>::empty());

    let kind = "Content-Type"@ + ": "@ + media_type;
    let length = "Content-Length"@ + ": "@ + text::decimal(payload.len());
    let kind_line = utf8::encode_utf8(kind + "\r\n"@);
    let length_line = utf8::encode_utf8(length + "\r\n"@);
    let end = blank + payload;
    lemma_announced_lines(media_type, payload.len());
    lemma_length_is_a_header(payload.len());
    reveal_strlit("Content-Type");
    reveal_strlit("Content-Length");
    reveal_strlit(": ");
    assert forall|i: int| 0 <= i < kind.len() implies #[trigger] kind[i] != '\n' by {
        if i >= 14 {
            assert(kind[i] == media_type[i - 14]);
        }
    }
    let digits = text::decimal(payload.len());
    assert forall|i: int| 0 <= i < length.len() implies #[trigger] length[i] != '\n' by {
        if i >= 16 {
            assert(length[i] == digits[i - 16]);
        }
    }
    lemma_text_is_line(length, end);
    lemma_text_is_line(kind, length_line + end);
    lemma_head_stops(length_line, end);
    lemma_head_goes_on(kind_line, length_line + end);
    lemma_head_goes_on(line, kind_line + (length_line + end));
    let full = response::full(status, media_type, payload);
    assert(full == line + (kind_line + (length_line + end)));
    let head = line.len() + kind_line.len() + length_line.len() + 2;
    assert(full.skip(head as int) == payload);
}

/// The lines of the headers that announce a body.
proof fn lemma_announced_lines(media_type: Seq<char>, length: nat)
    ensures
        response::header_lines(response::body_headers(media_type, length)) == utf8::encode_utf8(
            "Content-Type"@ + ": "@ + media_type + "\r\n"@,
        ) + utf8::encode_utf8("Content-Length"@ + ": "@ + text::decimal(length) + "\r\n"@),
{
    let announced = response::body_headers(media_type, length);
    lemma_header_lines_front(announced);
    lemma_header_lines_front(announced.skip(1));
    assert(announced.skip(1).skip(1) == Seq::<(Seq<char>, Seq<char>)>::empty());
}

/// What the library sends as a body is announced with a media type that can stand in a header, and
/// is what follows the first empty line of the response.
pub proof fn law_every_body_follows_head(
    status: StatusCode,
    html: Html,
    svg: Svg,
    plain: String,
    data: Vec<u8>,
)
    ensures
        is_header_text(html.media_type()),
        is_header_text(svg.media_type()),
        is_header_text(plain.media_type()),
        is_header_text(data.media_type()),
        follows_head(response::full(status, html.media_type(), html.payload()), html.payload()),
        follows_head(response::full(status, svg.media_type(), svg.payload()), svg.payload()),
        follows_head(response::full(status, plain.media_type(), plain.payload()), plain.payload()),
        follows_head(response::full(status, data.media_type(), data.payload()), data.payload()),
{
    reveal_strlit("text/html");
    reveal_strlit("image/svg+xml");
    reveal_strlit("text/plain");
    reveal_strlit("application/octet-stream");
    lemma_plain_header_text(html.media_type());
    lemma_plain_header_text(svg.media_type());
    lemma_plain_header_text(plain.media_type());
    lemma_plain_header_text(data.media_type());
    law_body_follows_head(status, html.media_type(), html.payload());
    law_body_follows_head(status, svg.media_type(), svg.payload());
    law_body_follows_head(status, plain.media_type(), plain.payload());
    law_body_follows_head(status, data.media_type(), data.payload());
}

proof fn lemma_status_line_is_one_line(status: StatusCode)
    ensures
        ({
            let front = "HTTP/1.1 "@ + response::status_text(status);
            forall|i: int| 0 <= i < front.len() ==> #[trigger] front[i] != '\n'
        }),
{
    reveal_strlit("HTTP/1.1 ");
    reveal_strlit("200 OK");
    reveal_strlit("201 Created");
    reveal_strlit("400 Bad Request");
    reveal_strlit("404 Not Found");
    reveal_strlit("411 Length Required");
    reveal_strlit("500 Internal Server Error");
    let v = "HTTP/1.1 "@;
    let s = response::status_text(status);
    assert(forall|i: int| 0 <= i < v.len() ==> #[trigger] v[i] != '\n');
    assert(forall|i: int| 0 <= i < s.len() ==> #[trigger] s[i] != '\n');
}

proof fn lemma_length_is_a_header(length: nat)
    ensures
        is_header_text("Content-Length"@),
        is_header_text(text::decimal(length)),
{
    reveal_strlit("Content-Length");
    lemma_plain_header_text("Content-Length"@);
    text::lemma_decimal_digits(length);
    lemma_plain_header_text(text::decimal(length));
}

proof fn lemma_body_headers_are_headers(media_type: Seq<char>, length: nat)
    requires
        is_header_text(media_type),
    ensures
        are_headers(response::body_headers(media_type, length)),
{
    reveal_strlit("Content-Type");
    lemma_plain_header_text("Content-Type"@);
    lemma_length_is_a_header(length);
}

/// A text without white space can stand in a header.
proof fn lemma_plain_header_text(s: Seq<char>)
    requires
        is_word(s),
    ensures
        is_header_text(s),
{
    assert(!text::is_white(s[0]));
    assert(!text::is_white(s[s.len() - 1]));
    text::lemma_find(s, ": "@);
    if let Some(i) = text::find(s, ": "@) {
        lemma_colon_space(s, i);
        assert(text::is_white(s[i + 1]));
    }
    assert forall|i: int| 0 <= i < s.len() implies #[trigger] s[i] != '\n' by {
        assert(!text::is_white(s[i]));
    }
}

/// A text in which a line feed can only be the last character.
spec fn is_one_line(s: Seq<char>) -> bool {
    forall|i: int| 0 <= i < s.len() - 1 ==> #[trigger] s[i] != '\n'
}

/// A map of headers whose names and values can be written.
pub open spec fn is_header_map(headers: Map<Seq<char>, Seq<char>>) -> bool {
    forall|name: Seq<char>| #[trigger]
        headers.contains_key(name) ==> is_header_text(name) && is_header_text(headers[name])
}

/// Whether a text holds no white space.
pub open spec fn lacks_white(s: Seq<char>) -> bool {
    forall|i: int| 0 <= i < s.len() ==> !text::is_white(#[trigger] s[i])
}

/// A part of a text in which `": "` does not occur has none either.
proof fn lemma_part_lacks_pattern(s: Seq<char>, from: int, to: int)
    requires
        0 <= from <= to <= s.len(),
        forall|j: int| from <= j < to ==> !": "@.is_prefix_of(#[trigger] s.skip(j)),
    ensures
        text::find(s.subrange(from, to), ": "@) is None,
{
    let part = s.subrange(from, to);
    text::lemma_find(part, ": "@);
    if let Some(i) = text::find(part, ": "@) {
        lemma_colon_space(part, i);
        lemma_colon_space(s, from + i);
        assert(s.skip(from + i).len() >= 2);
    }
}

proof fn lemma_find_none_in_part(s: Seq<char>, from: int, to: int)
    requires
        0 <= from <= to <= s.len(),
        text::find(s, ": "@) is None,
    ensures
        text::find(s.subrange(from, to), ": "@) is None,
{
    text::lemma_find(s, ": "@);
    lemma_part_lacks_pattern(s, from, to);
}

/// The pieces between the occurrences of `": "` hold none, and are parts of one line where the
/// text is one.
proof fn lemma_pieces_are_plain(s: Seq<char>, i: int)
    requires
        is_one_line(s),
        0 <= i < text::split_pattern(s, ": "@).len(),
    ensures
        text::find(text::split_pattern(s, ": "@)[i], ": "@) is None,
        is_one_line(text::split_pattern(s, ": "@)[i]),
    decreases s.len(),
{
    lemma_colon_space(s, 0);
    text::lemma_find(s, ": "@);
    if let Some(k) = text::find(s, ": "@) {
        let rest = s.skip(k + 2);
        if i == 0 {
            assert(s.take(k) == s.subrange(0, k));
            lemma_part_lacks_pattern(s, 0, k);
            assert(text::split_pattern(s, ": "@)[0] == s.take(k));
        } else {
            assert(is_one_line(rest)) by {
                assert forall|j: int| 0 <= j < rest.len() - 1 implies #[trigger] rest[j] != '\n' by {
                    assert(rest[j] == s[j + k + 2]);
                }
            }
            assert(text::split_pattern(s, ": "@)[i] == text::split_pattern(rest, ": "@)[i - 1]);
            lemma_pieces_are_plain(rest, i - 1);
        }
    }
}

proof fn lemma_trim_start_plain(s: Seq<char>)
    requires
        is_one_line(s),
        text::find(s, ": "@) is None,
    ensures
        is_one_line(text::trim_start(s)),
        text::find(text::trim_start(s), ": "@) is None,
        text::trim_start(s).len() > 0 ==> !text::is_white(text::trim_start(s)[0]),
    decreases s.len(),
{
    if s.len() > 0 && text::is_white(s[0]) {
        let rest = s.skip(1);
        assert(rest == s.subrange(1, s.len() as int));
        lemma_find_none_in_part(s, 1, s.len() as int);
        assert(is_one_line(rest)) by {
            assert forall|j: int| 0 <= j < rest.len() - 1 implies #[trigger] rest[j] != '\n' by {
                assert(rest[j] == s[j + 1]);
            }
        }
        lemma_trim_start_plain(rest);
    }
}

proof fn lemma_trim_end_plain(s: Seq<char>)
    requires
        is_one_line(s),
        text::find(s, ": "@) is None,
        s.len() > 0 ==> !text::is_white(s[0]),
    ensures
        is_one_line(text::trim_end(s)),
        text::find(text::trim_end(s), ": "@) is None,
        text::trim_end(s).len() > 0 ==> {
            &&& !text::is_white(text::trim_end(s)[0])
            &&& !text::is_white(text::trim_end(s).last())
        },
    decreases s.len(),
{
    if s.len() > 0 && text::is_white(s.last()) {
        let front = s.drop_last();
        assert(front == s.subrange(0, s.len() - 1));
        lemma_find_none_in_part(s, 0, s.len() - 1);
        lemma_trim_end_plain(front);
    }
}

/// What is trimmed of one line, and free of `": "`, can be the name or the value of a header.
proof fn lemma_trimmed_is_header_text(s: Seq<char>)
    requires
        is_one_line(s),
        text::find(s, ": "@) is None,
    ensures
        is_header_text(text::trimmed(s)),
{
    lemma_trim_start_plain(s);
    lemma_trim_end_plain(text::trim_start(s));
    let cut = text::trimmed(s);
    assert forall|i: int| 0 <= i < cut.len() implies #[trigger] cut[i] != '\n' by {
        if i == cut.len() - 1 {
            assert(!text::is_white(cut.last()));
        }
    }
}

/// A line that is read is one line as text too.
proof fn lemma_read_line_is_one_line(rest: Seq<u8>)
    requires
        utf8::valid_utf8(request::first_line(rest)),
    ensures
        is_one_line(utf8::decode_utf8(request::first_line(rest))),
{
    let line = request::first_line(rest);
    let s = utf8::decode_utf8(line);
    utf8::decode_utf8_encode_utf8(line);
    rest.index_of_first_ensures(0x0a);
    assert forall|m: int| 0 <= m < line.len() - 1 implies #[trigger] line[m] != 0x0a by {
        assert(line[m] == rest[m]);
        if line[m] == 0x0a {
            assert(rest.contains(0x0a));
        }
    }
    assert forall|k: int| 0 <= k < s.len() - 1 implies #[trigger] s[k] != '\n' by {
        if s[k] == '\n' {
            let before = s.take(k);
            let after = s.skip(k + 1);
            let feed = seq!['\n'];
            assert(s == before + (feed + after));
            encoding::lemma_encode_concat(before, feed + after);
            encoding::lemma_encode_concat(feed, after);
            assert(utf8::is_ascii_chars(feed));
            utf8::is_ascii_chars_encode_utf8(feed);
            assert(feed[0] as u8 == utf8::encode_utf8(feed)[0]);
            let m = utf8::encode_utf8(before).len() as int;
            assert(line[m] == 0x0a);
            assert(utf8::encode_utf8(after).len() > 0) by {
                assert(utf8::encode_scalar(after[0] as u32).len() > 0);
            }
        }
    }
}

/// Reading a header line keeps the headers such that they can be written.
proof fn lemma_header_line_keeps(headers: Map<Seq<char>, Seq<char>>, line: Seq<char>)
    requires
        is_header_map(headers),
        is_one_line(line),
    ensures
        is_header_map(request::with_header_line(headers, line)),
{
    let pieces = text::split_pattern(line, ": "@);
    let parts = text::split_terminator(line, ": "@);
    lemma_colon_space(line, 0);
    assert(pieces.len() > 0);
    if parts.len() == 2 {
        assert(parts[0] == pieces[0]);
        assert(parts[1] == pieces[1]);
        lemma_pieces_are_plain(line, 0);
        lemma_pieces_are_plain(line, 1);
        lemma_trimmed_is_header_text(parts[0]);
        lemma_trimmed_is_header_text(parts[1]);
    }
}

proof fn lemma_header_block_keeps(rest: Seq<u8>, headers: Map<Seq<char>, Seq<char>>)
    requires
        is_header_map(headers),
    ensures
        request::header_block(rest, headers) matches Some((read, _)) ==> is_header_map(read),
    decreases rest.len(),
{
    let line = request::first_line(rest);
    request::lemma_first_line(rest);
    if rest.len() > 0 && utf8::valid_utf8(line) && line != request::blank_line() {
        lemma_read_line_is_one_line(rest);
        lemma_header_line_keeps(headers, utf8::decode_utf8(line));
        lemma_header_block_keeps(
            rest.skip(line.len() as int),
            request::with_header_line(headers, utf8::decode_utf8(line)),
        );
    }
}

proof fn lemma_words_are_words(s: Seq<char>, i: int)
    requires
        0 <= i < text::words(s).len(),
    ensures
        is_word(text::words(s)[i]),
{
    let sep = |c: char| text::is_white(c);
    let full = |w: Seq<char>| w.len() > 0;
    let pieces = text::split_by(s, sep);
    text::lemma_filter_keeps(pieces, full, i);
    let k = choose|k: int| 0 <= k < pieces.len() && pieces[k] == text::words(s)[i];
    text::lemma_piece_lacks_separators(s, sep, k);
    let word = text::words(s)[i];
    assert forall|j: int| 0 <= j < word.len() implies !text::is_white(#[trigger] word[j]) by {
        assert(!sep(pieces[k][j]));
    }
}

/// What a request that was read says is clean: the parts of its request line hold no white space,
/// a later part is there only if the earlier ones are, and the names and values of its headers
/// are single lines without white space around them in which `": "` does not occur.
pub proof fn law_parsed_request_is_clean(bytes: Seq<u8>)
    ensures
        request::parsed(bytes) matches Ok(view) ==> {
            &&& lacks_white(view.method)
            &&& lacks_white(view.target)
            &&& lacks_white(view.http_version)
            &&& view.http_version.len() > 0 ==> view.target.len() > 0
            &&& view.target.len() > 0 ==> view.method.len() > 0
            &&& is_header_map(view.headers)
        },
{
    if request::parsed(bytes) is Ok {
        let line = request::first_line(bytes);
        let parts = text::words(utf8::decode_utf8(line));
        lemma_header_block_keeps(bytes.skip(line.len() as int), Map::empty());
        assert forall|i: int| 0 <= i < parts.len() implies is_word(#[trigger] parts[i]) by {
            lemma_words_are_words(utf8::decode_utf8(line), i);
        }
    }
}

}

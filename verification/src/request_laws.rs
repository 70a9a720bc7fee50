//! What holds of requests: what is read from bytes, line by line and as a whole.
use crate::encoding;
use crate::laws;
use crate::request;
use crate::request::{Refusal, RequestView};
use crate::text;
use crate::text_laws;
use vstd::prelude::*;
use vstd::utf8;

verus! {

/// A line goes up to and with the first line feed; without one it is all there is.
pub proof fn law_line_ends_at_line_feed(front: Seq<u8>, rest: Seq<u8>)
    requires
        !front.contains(0x0a),
    ensures
        request::first_line(front + seq![0x0au8] + rest) == front + seq![0x0au8],
        request::first_line(front) == front,
{
    let whole = front + seq![0x0au8] + rest;
    let n = front.len() as int;
    assert(whole[n] == 0x0a);
    assert(whole.contains(0x0a));
    whole.index_of_first_ensures(0x0a);
    front.index_of_first_ensures(0x0a);
    let i = whole.index_of_first(0x0a)->0;
    if i < n {
        assert(whole[i] == front[i]);
        assert(front.contains(front[i]));
    }
    assert(whole.take(n + 1) == front + seq![0x0au8]);
}

/// A text without line feeds, and a line feed after it.
proof fn lemma_text_line(front: Seq<char>, rest: Seq<u8>)
    requires
        !front.contains('\n'),
    ensures
        ({
            let line = utf8::encode_utf8(front.push('\n'));
            &&& line == utf8::encode_utf8(front) + seq![0x0au8]
            &&& !utf8::encode_utf8(front).contains(0x0a)
            &&& request::first_line(line + rest) == line
            &&& (line + rest).skip(line.len() as int) == rest
            &&& utf8::valid_utf8(line)
            &&& utf8::decode_utf8(line) == front.push('\n')
        }),
        request::first_line(utf8::encode_utf8(front)) == utf8::encode_utf8(front),
        utf8::valid_utf8(utf8::encode_utf8(front)),
        utf8::decode_utf8(utf8::encode_utf8(front)) == front,
{
    let head = utf8::encode_utf8(front);
    let feed = seq!['\n'];
    let line = utf8::encode_utf8(front.push('\n'));
    assert forall|i: int| 0 <= i < front.len() implies #[trigger] front[i] != '\n' by {
        assert(front.contains(front[i]));
    }
    encoding::lemma_encode_lacks(front, '\n');
    assert(front.push('\n') == front + feed);
    encoding::lemma_encode_concat(front, feed);
    assert(utf8::is_ascii_chars(feed));
    utf8::is_ascii_chars_encode_utf8(feed);
    assert(feed[0] as u8 == utf8::encode_utf8(feed)[0]);
    assert(utf8::encode_utf8(feed) == seq![0x0au8]);
    law_line_ends_at_line_feed(head, rest);
    assert(line + rest == head + seq![0x0au8] + rest);
    assert((line + rest).skip(line.len() as int) == rest);
    utf8::encode_utf8_valid_utf8(front);
    utf8::encode_utf8_decode_utf8(front);
    utf8::encode_utf8_valid_utf8(front.push('\n'));
    utf8::encode_utf8_decode_utf8(front.push('\n'));
}

/// A header line has a name and a value where `": "` parts it in two; an empty rest after a last
/// `": "` does not count. A line that is parted otherwise changes nothing.
pub proof fn law_header_line_is_two_parts(
    headers: Map<Seq<char>, Seq<char>>,
    first: Seq<char>,
    pieces: Seq<Seq<char>>,
)
    requires
        text_laws::lacks_colon_space(first),
        forall|i: int|
            0 <= i < pieces.len() ==> text_laws::lacks_colon_space(#[trigger] pieces[i]),
    ensures
        request::with_header_line(headers, text_laws::coloned(first, pieces)) == if (pieces.len()
            == 1 && pieces[0].len() > 0) || (pieces.len() == 2 && pieces[1].len() == 0) {
            headers.insert(text::trimmed(first), text::trimmed(pieces[0]))
        } else {
            headers
        },
{
    let line = text_laws::coloned(first, pieces);
    reveal_strlit(": ");
    assert(": "@ == seq![':', ' ']);
    text_laws::law_colons_part(first, pieces);
    text_laws::law_terminated_pieces(line, ": "@);
    let all = seq![first] + pieces;
    let kept = text::split_terminator(line, ": "@);
    if pieces.len() > 0 {
        assert(all.last() == pieces.last());
        assert(all[1] == pieces[0]);
    }
    if all.last().len() == 0 {
        assert(kept.push(Seq::<char>::empty()) == all);
        assert(kept.len() == all.len() - 1);
        if kept.len() == 2 {
            assert(kept.push(Seq::<char>::empty())[0] == kept[0]);
            assert(kept.push(Seq::<char>::empty())[1] == kept[1]);
        }
    }
}

/// Header lines are read one by one: each line of text, but for the blank one, has its effect and
/// the reading goes on after it.
pub proof fn law_header_lines_are_read_in_turn(
    front: Seq<char>,
    rest: Seq<u8>,
    headers: Map<Seq<char>, Seq<char>>,
)
    requires
        !front.contains('\n'),
        front != seq!['\r'],
    ensures
        request::header_block(utf8::encode_utf8(front.push('\n')) + rest, headers)
            == request::header_block(
            rest,
            request::with_header_line(headers, front.push('\n')),
        ),
{
    lemma_text_line(front, rest);
    let line = utf8::encode_utf8(front.push('\n'));
    if line == request::blank_line() {
        lemma_carriage_return();
        utf8::encode_utf8_decode_utf8(front);
        assert(utf8::encode_utf8(front) == line.drop_last());
        assert(line.drop_last() == seq![0x0du8]);
        utf8::encode_utf8_decode_utf8(seq!['\r']);
    }
}

proof fn lemma_carriage_return()
    ensures
        utf8::encode_utf8(seq!['\r']) == seq![0x0du8],
        utf8::encode_utf8(seq!['\r'].push('\n')) == seq![0x0du8, 0x0au8],
{
    let cr = seq!['\r'];
    assert(utf8::is_ascii_chars(cr));
    utf8::is_ascii_chars_encode_utf8(cr);
    assert(cr[0] as u8 == utf8::encode_utf8(cr)[0]);
    assert(utf8::encode_utf8(cr) == seq![0x0du8]);
    lemma_text_line(cr, Seq::empty());
    assert(seq![0x0du8] + seq![0x0au8] == seq![0x0du8, 0x0au8]);
}

/// The headers end at a carriage return and a line feed, and what follows is left as it is; they
/// also end where the bytes do, with or without an end to the last line.
pub proof fn law_headers_end(
    rest: Seq<u8>,
    last: Seq<char>,
    headers: Map<Seq<char>, Seq<char>>,
)
    requires
        !last.contains('\n'),
    ensures
        request::header_block(seq![0x0du8, 0x0au8] + rest, headers) == Some((headers, rest)),
        request::header_block(Seq::empty(), headers) == Some((headers, Seq::<u8>::empty())),
        last.len() > 0 ==> request::header_block(utf8::encode_utf8(last), headers) == Some(
            (request::with_header_line(headers, last), Seq::<u8>::empty()),
        ),
{
    lemma_carriage_return();
    lemma_text_line(seq!['\r'], rest);
    assert(request::blank_line() == seq![0x0du8, 0x0au8]);
    if last.len() > 0 {
        let bytes = utf8::encode_utf8(last);
        lemma_text_line(last, Seq::empty());
        assert(bytes.len() > 0) by {
            assert(utf8::encode_scalar(last[0] as u32).len() > 0);
        }
        if bytes == request::blank_line() {
            assert(bytes[1] == 0x0a);
            assert(bytes.contains(0x0a));
        }
        assert(bytes.skip(bytes.len() as int) == Seq::<u8>::empty());
        reveal_with_fuel(request::header_block, 2);
    }
}

/// A header line that is not UTF-8 spoils the headers, wherever it stands.
pub proof fn law_unreadable_header_spoils(
    front: Seq<u8>,
    rest: Seq<u8>,
    headers: Map<Seq<char>, Seq<char>>,
)
    requires
        !front.contains(0x0a),
    ensures
        !utf8::valid_utf8(front + seq![0x0au8]) ==> request::header_block(
            front + seq![0x0au8] + rest,
            headers,
        ) is None,
        !utf8::valid_utf8(front) ==> request::header_block(front, headers) is None,
{
    law_line_ends_at_line_feed(front, rest);
}

/// Bytes whose first line is not UTF-8 are refused for it, whatever follows.
pub proof fn law_unreadable_line_is_refused(front: Seq<u8>, rest: Seq<u8>)
    requires
        !front.contains(0x0a),
    ensures
        !utf8::valid_utf8(front + seq![0x0au8]) ==> request::parsed(front + seq![0x0au8] + rest)
            == Err::<RequestView, Refusal>(Refusal::UnreadableLine),
        !utf8::valid_utf8(front) ==> request::parsed(front) == Err::<RequestView, Refusal>(
            Refusal::UnreadableLine,
        ),
{
    law_line_ends_at_line_feed(front, rest);
}

/// A request line with more than three words is refused for it, whatever follows.
pub proof fn law_crowded_line_is_refused(front: Seq<char>, rest: Seq<u8>)
    requires
        !front.contains('\n'),
        text::words(front).len() > 3,
    ensures
        request::parsed(utf8::encode_utf8(front.push('\n')) + rest) == Err::<RequestView, Refusal>(
            Refusal::CrowdedLine,
        ),
        request::parsed(utf8::encode_utf8(front)) == Err::<RequestView, Refusal>(
            Refusal::CrowdedLine,
        ),
{
    lemma_text_line(front, rest);
    lemma_words_of_line(front);
}

/// The end of a line is no word.
proof fn lemma_words_of_line(front: Seq<char>)
    ensures
        text::words(front.push('\n')) == text::words(front),
{
    let none = Seq::<char>::empty();
    text_laws::law_words_are_parted(front, '\n', none);
    text_laws::law_word_is_whole(none);
    assert(front + seq!['\n'] + none == front.push('\n'));
    assert(text::words(front) + Seq::<Seq<char>>::empty() == text::words(front));
}

/// The words of a line as the parts of a request line: what is not there is empty.
pub open spec fn word_at(line: Seq<char>, i: int) -> Seq<char> {
    if i < text::words(line).len() {
        text::words(line)[i]
    } else {
        Seq::empty()
    }
}

/// A request line of at most three words is followed by the headers; where a header line is not
/// UTF-8 the bytes are refused for it.
pub proof fn law_unreadable_header_is_refused(front: Seq<char>, rest: Seq<u8>)
    requires
        !front.contains('\n'),
        text::words(front).len() <= 3,
        request::header_block(rest, Map::empty()) is None,
    ensures
        request::parsed(utf8::encode_utf8(front.push('\n')) + rest) == Err::<RequestView, Refusal>(
            Refusal::UnreadableHeader,
        ),
{
    lemma_text_line(front, rest);
    lemma_words_of_line(front);
}

/// Without a length among the headers, a request has no body: nothing may follow the headers.
pub proof fn law_no_length_is_no_body(
    front: Seq<char>,
    rest: Seq<u8>,
    headers: Map<Seq<char>, Seq<char>>,
    after: Seq<u8>,
)
    requires
        !front.contains('\n'),
        text::words(front).len() <= 3,
        request::header_block(rest, Map::empty()) == Some((headers, after)),
        !headers.contains_key("Content-Length"@),
    ensures
        after.len() == 0 ==> request::parsed(utf8::encode_utf8(front.push('\n')) + rest) == Ok::<
            RequestView,
            Refusal,
        >(
            RequestView {
                method: word_at(front, 0),
                target: word_at(front, 1),
                http_version: word_at(front, 2),
                headers,
                body: Seq::empty(),
            },
        ),
        after.len() > 0 ==> request::parsed(utf8::encode_utf8(front.push('\n')) + rest) == Err::<
            RequestView,
            Refusal,
        >(Refusal::LengthRequired),
{
    lemma_text_line(front, rest);
    lemma_words_of_line(front);
    assert(after.take(0) == Seq::<u8>::empty());
}

/// With a length among the headers, the body is that many of the bytes that follow the headers;
/// what cannot be so is refused.
pub proof fn law_length_gives_the_body(
    front: Seq<char>,
    rest: Seq<u8>,
    headers: Map<Seq<char>, Seq<char>>,
    after: Seq<u8>,
)
    requires
        !front.contains('\n'),
        text::words(front).len() <= 3,
        request::header_block(rest, Map::empty()) == Some((headers, after)),
        headers.contains_key("Content-Length"@),
    ensures
        request::parsed(utf8::encode_utf8(front.push('\n')) + rest) == (match text::number(
            headers["Content-Length"@],
        ) {
            Some(n) => if n > usize::MAX {
                Err::<RequestView, Refusal>(Refusal::InvalidLength)
            } else if n == 0 && after.len() > 0 {
                Err(Refusal::LengthRequired)
            } else if n <= after.len() {
                Ok(
                    RequestView {
                        method: word_at(front, 0),
                        target: word_at(front, 1),
                        http_version: word_at(front, 2),
                        headers,
                        body: after.take(n as int),
                    },
                )
            } else if n <= isize::MAX {
                Err(Refusal::ShortBody)
            } else {
                Err(Refusal::ExcessiveLength)
            },
            None => Err(Refusal::InvalidLength),
        }),
{
    lemma_text_line(front, rest);
    lemma_words_of_line(front);
}

/// A request line without an end is all of the request.
pub proof fn law_line_alone_is_a_request(front: Seq<char>)
    requires
        !front.contains('\n'),
        text::words(front).len() <= 3,
    ensures
        request::parsed(utf8::encode_utf8(front)) == Ok::<RequestView, Refusal>(
            RequestView {
                method: word_at(front, 0),
                target: word_at(front, 1),
                http_version: word_at(front, 2),
                headers: Map::empty(),
                body: Seq::empty(),
            },
        ),
{
    let bytes = utf8::encode_utf8(front);
    let none = Seq::<u8>::empty();
    lemma_text_line(front, none);
    assert(bytes.skip(bytes.len() as int) == none);
    assert(none.take(0) == none);
}

/// Headers without a length for the body give the length zero.
pub proof fn law_missing_length_is_zero(headers: Map<Seq<char>, Seq<char>>)
    requires
        !headers.contains_key("Content-Length"@),
    ensures
        request::declared_length(headers) == Some(0nat),
{
}

/// The length goes by the one header that gives it, whatever other headers there are.
pub proof fn law_length_goes_by_its_header(
    headers: Map<Seq<char>, Seq<char>>,
    others: Map<Seq<char>, Seq<char>>,
)
    requires
        headers.contains_key("Content-Length"@) == others.contains_key("Content-Length"@),
        headers.contains_key("Content-Length"@) ==> headers["Content-Length"@]
            == others["Content-Length"@],
    ensures
        request::declared_length(headers) == request::declared_length(others),
{
}

/// The length is the number that its header writes, where a machine word can hold it.
pub proof fn law_length_is_the_number(headers: Map<Seq<char>, Seq<char>>)
    requires
        headers.contains_key("Content-Length"@),
    ensures
        match text::number(headers["Content-Length"@]) {
            Some(n) => request::declared_length(headers) == if n <= usize::MAX {
                Some(n)
            } else {
                None
            },
            None => request::declared_length(headers) is None,
        },
{
}

/// Header texts are the headers with the same names, each with the text of its value.
pub proof fn law_header_texts(headers: Map<Seq<char>, String>)
    ensures
        request::header_texts(headers).dom() == headers.dom(),
        forall|name: Seq<char>| #[trigger]
            headers.contains_key(name) ==> request::header_texts(headers)[name] == headers[name]@,
{
}

/// A word: some characters, and no white space among them.
pub open spec fn is_solid(s: Seq<char>) -> bool {
    s.len() > 0 && forall|i: int| 0 <= i < s.len() ==> !text::is_white(#[trigger] s[i])
}

/// A text that stands in a header line as it is: it starts and ends in something other than white
/// space, is one line, and no colon in it has a space after it.
pub open spec fn is_plain(s: Seq<char>) -> bool {
    &&& s.len() > 0 ==> !text::is_white(s[0]) && !text::is_white(s.last())
    &&& text_laws::lacks_colon_space(s)
    &&& !s.contains('\n')
}

/// Header lines, each with its name, a colon and a space, its value, and the end of the line.
pub open spec fn written_headers(headers: Seq<(Seq<char>, Seq<char>)>) -> Seq<u8>
    decreases headers.len(),
{
    if headers.len() == 0 {
        Seq::empty()
    } else {
        utf8::encode_utf8(headers[0].0 + seq![':', ' '] + headers[0].1 + seq!['\r', '\n'])
            + written_headers(headers.skip(1))
    }
}

/// A request line, header lines, an empty line, and what follows it.
pub open spec fn written_request(
    method: Seq<char>,
    target: Seq<char>,
    http_version: Seq<char>,
    headers: Seq<(Seq<char>, Seq<char>)>,
    after: Seq<u8>,
) -> Seq<u8> {
    utf8::encode_utf8(method + seq![' '] + target + seq![' '] + http_version + seq!['\r', '\n'])
        + (written_headers(headers) + (seq![0x0du8, 0x0au8] + after))
}

/// Whether every name and every value can stand in a header line.
pub open spec fn all_plain(headers: Seq<(Seq<char>, Seq<char>)>) -> bool {
    forall|i: int|
        0 <= i < headers.len() ==> is_plain((#[trigger] headers[i]).0) && is_plain(headers[i].1)
}

/// A written header line is read as the header that it was written for.
pub proof fn law_written_header_is_read(
    headers: Map<Seq<char>, Seq<char>>,
    name: Seq<char>,
    value: Seq<char>,
)
    requires
        is_plain(name),
        is_plain(value),
    ensures
        request::with_header_line(headers, name + seq![':', ' '] + value + seq!['\r', '\n'])
            == headers.insert(name, value),
{
    let none = Seq::<char>::empty();
    let end = seq!['\r', '\n'];
    let pieces = seq![value + end];
    assert(pieces.skip(1) == Seq::<Seq<char>>::empty());
    reveal_with_fuel(text_laws::coloned, 2);
    assert(text_laws::coloned(name, pieces) == name + seq![':', ' '] + value + end);
    assert(text_laws::lacks_colon_space(value + end)) by {
        let s = value + end;
        assert forall|j: int| 0 <= j && j + 1 < s.len() implies !(#[trigger] s[j] == ':' && s[j + 1]
            == ' ') by {
            if j < value.len() {
                assert(s[j] == value[j]);
            }
        }
    }
    law_header_line_is_two_parts(headers, name, pieces);
    text_laws::law_trim_takes_the_sides_off(none, name, none);
    assert(none + name + none == name);
    text_laws::law_trim_takes_the_sides_off(none, value, end);
    assert(none + value + end == value + end);
}

/// Written header lines and the empty line after them are read as the headers that they were
/// written for, the later over the earlier.
pub proof fn law_written_headers_are_read(
    base: Map<Seq<char>, Seq<char>>,
    headers: Seq<(Seq<char>, Seq<char>)>,
    after: Seq<u8>,
)
    requires
        all_plain(headers),
    ensures
        request::header_block(written_headers(headers) + (seq![0x0du8, 0x0au8] + after), base)
            == Some((laws::header_map(base, headers), after)),
    decreases headers.len(),
{
    let end = seq![0x0du8, 0x0au8] + after;
    if headers.len() == 0 {
        law_headers_end(after, Seq::empty(), base);
        assert(written_headers(headers) + end == end);
    } else {
        let (name, value) = headers[0];
        let rest = headers.skip(1);
        let front = name + seq![':', ' '] + value + seq!['\r'];
        assert(is_plain(headers[0].0) && is_plain(headers[0].1));
        assert(front.push('\n') == name + seq![':', ' '] + value + seq!['\r', '\n']);
        assert(!front.contains('\n')) by {
            if front.contains('\n') {
                let i = choose|i: int| 0 <= i < front.len() && front[i] == '\n';
                if i < name.len() {
                    assert(name.contains(name[i]));
                } else if name.len() + 2 <= i < name.len() + 2 + value.len() {
                    assert(value.contains(value[i - name.len() - 2]));
                }
            }
        }
        assert(front.len() >= 3);
        law_header_lines_are_read_in_turn(front, written_headers(rest) + end, base);
        law_written_header_is_read(base, name, value);
        assert forall|i: int| 0 <= i < rest.len() implies is_plain((#[trigger] rest[i]).0)
            && is_plain(rest[i].1) by {
            assert(rest[i] == headers[i + 1]);
        }
        law_written_headers_are_read(base.insert(name, value), rest, after);
        assert(written_headers(headers) + end == utf8::encode_utf8(front.push('\n')) + (
        written_headers(rest) + end));
    }
}

proof fn lemma_request_line(method: Seq<char>, target: Seq<char>, http_version: Seq<char>)
    requires
        is_solid(method),
        is_solid(target),
        is_solid(http_version),
    ensures
        ({
            let front = method + seq![' '] + target + seq![' '] + http_version + seq!['\r'];
            &&& text::words(front) == seq![method, target, http_version]
            &&& !front.contains('\n')
            &&& front.push('\n') == method + seq![' '] + target + seq![' '] + http_version + seq![
                '\r',
                '\n',
            ]
        }),
{
    let none = Seq::<char>::empty();
    let front = method + seq![' '] + target + seq![' '] + http_version + seq!['\r'];
    let last = http_version + seq!['\r'] + none;
    let middle = target + seq![' '] + last;
    assert(front == method + seq![' '] + middle);
    text_laws::law_words_are_parted(method, ' ', middle);
    text_laws::law_words_are_parted(target, ' ', last);
    text_laws::law_words_are_parted(http_version, '\r', none);
    text_laws::law_word_is_whole(method);
    text_laws::law_word_is_whole(target);
    text_laws::law_word_is_whole(http_version);
    text_laws::law_word_is_whole(none);
    assert(text::words(front) == seq![method, target, http_version]);
    if front.contains('\n') {
        let i = choose|i: int| 0 <= i < front.len() && front[i] == '\n';
        let m = method.len();
        let t = target.len();
        if i < m {
            assert(!text::is_white(method[i]));
        } else if m < i < m + 1 + t {
            assert(!text::is_white(target[i - m - 1]));
        } else if m + t + 2 <= i < front.len() - 1 {
            assert(!text::is_white(http_version[i - m - t - 2]));
        }
    }
}

/// A written request none of whose headers gives a length, and with nothing after its empty line,
/// is read as that request, with an empty body. With anything after the empty line it is refused
/// for want of a length.
pub proof fn law_request_without_length_is_read(
    method: Seq<char>,
    target: Seq<char>,
    http_version: Seq<char>,
    headers: Seq<(Seq<char>, Seq<char>)>,
    after: Seq<u8>,
)
    requires
        is_solid(method),
        is_solid(target),
        is_solid(http_version),
        all_plain(headers),
        forall|i: int| 0 <= i < headers.len() ==> (#[trigger] headers[i]).0 != "Content-Length"@,
    ensures
        after.len() == 0 ==> request::parsed(
            written_request(method, target, http_version, headers, after),
        ) == Ok::<RequestView, Refusal>(
            RequestView {
                method,
                target,
                http_version,
                headers: laws::header_map(Map::empty(), headers),
                body: Seq::empty(),
            },
        ),
        after.len() > 0 ==> request::parsed(
            written_request(method, target, http_version, headers, after),
        ) == Err::<RequestView, Refusal>(Refusal::LengthRequired),
{
    let front = method + seq![' '] + target + seq![' '] + http_version + seq!['\r'];
    let rest = written_headers(headers) + (seq![0x0du8, 0x0au8] + after);
    let map = laws::header_map(Map::empty(), headers);
    lemma_request_line(method, target, http_version);
    law_written_headers_are_read(Map::empty(), headers, after);
    lemma_absent_name(Map::empty(), headers, "Content-Length"@);
    law_no_length_is_no_body(front, rest, map, after);
}

/// A name that no header has is not in the map of the headers.
proof fn lemma_absent_name(
    base: Map<Seq<char>, Seq<char>>,
    headers: Seq<(Seq<char>, Seq<char>)>,
    name: Seq<char>,
)
    requires
        !base.contains_key(name),
        forall|i: int| 0 <= i < headers.len() ==> (#[trigger] headers[i]).0 != name,
    ensures
        !laws::header_map(base, headers).contains_key(name),
    decreases headers.len(),
{
    if headers.len() > 0 {
        let rest = headers.skip(1);
        assert(headers[0].0 != name);
        assert forall|i: int| 0 <= i < rest.len() implies (#[trigger] rest[i]).0 != name by {
            assert(rest[i] == headers[i + 1]);
        }
        lemma_absent_name(base.insert(headers[0].0, headers[0].1), rest, name);
    }
}

/// A written request whose headers give a length is read with a body of that length from what
/// follows its empty line, or is refused: for a length that is no number or that no machine word
/// can hold, for the length zero where something follows, and for less bytes than the length.
pub proof fn law_request_with_length_is_read(
    method: Seq<char>,
    target: Seq<char>,
    http_version: Seq<char>,
    headers: Seq<(Seq<char>, Seq<char>)>,
    after: Seq<u8>,
)
    requires
        is_solid(method),
        is_solid(target),
        is_solid(http_version),
        all_plain(headers),
        laws::header_map(Map::empty(), headers).contains_key("Content-Length"@),
    ensures
        ({
            let map = laws::header_map(Map::empty(), headers);
            request::parsed(written_request(method, target, http_version, headers, after)) == (
            match text::number(map["Content-Length"@]) {
                Some(n) => if n > usize::MAX {
                    Err::<RequestView, Refusal>(Refusal::InvalidLength)
                } else if n == 0 && after.len() > 0 {
                    Err(Refusal::LengthRequired)
                } else if n <= after.len() {
                    Ok(
                        RequestView {
                            method,
                            target,
                            http_version,
                            headers: map,
                            body: after.take(n as int),
                        },
                    )
                } else if n <= isize::MAX {
                    Err(Refusal::ShortBody)
                } else {
                    Err(Refusal::ExcessiveLength)
                },
                None => Err(Refusal::InvalidLength),
            })
        }),
{
    let front = method + seq![' '] + target + seq![' '] + http_version + seq!['\r'];
    let rest = written_headers(headers) + (seq![0x0du8, 0x0au8] + after);
    lemma_request_line(method, target, http_version);
    law_written_headers_are_read(Map::empty(), headers, after);
    law_length_gives_the_body(front, rest, laws::header_map(Map::empty(), headers), after);
}

}

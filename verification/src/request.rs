//! Requests and how they are read from bytes.
use crate::method;
use crate::method::Method;
use crate::outside;
use crate::response;
use crate::response::{Response, StatusCode};
use crate::text;
use vstd::hash_map::StringHashMap;
use vstd::prelude::*;
use vstd::utf8;

verus! {

broadcast use vstd::string::group_string_axioms;

/// A request.
pub struct Request {
    method: String,
    target: String,
    http_version: String,
    headers: StringHashMap<String>,
    body: Vec<u8>,
}

/// What a request says. The parts of the request line that were not there are empty.
#[verifier::ext_equal]
pub struct RequestView {
    pub method: Seq<char>,
    pub target: Seq<char>,
    pub http_version: Seq<char>,
    pub headers: Map<Seq<char>, Seq<char>>,
    pub body: Seq<u8>,
}

/// Why bytes are not taken for a request.
#[derive(Debug, Clone, Copy, PartialEq, Eq, Structural)]
pub enum Refusal {
    /// The request line is not UTF-8.
    UnreadableLine,
    /// The request line has too many parts.
    CrowdedLine,
    /// A header line is not UTF-8.
    UnreadableHeader,
    /// The body ends before the length that is given for it.
    ShortBody,
    /// There is a body, and no length for it or the length zero.
    LengthRequired,
    /// The length that is given for the body is not a number, or is out of range.
    InvalidLength,
    /// The body ends before the length that is given for it, and no buffer can hold that many
    /// bytes.
    ExcessiveLength,
}

/// The first line of `rest`, with the line feed that ends it; all of `rest` where there is none.
pub open spec fn first_line(rest: Seq<u8>) -> Seq<u8> {
    match rest.index_of_first(0x0a) {
        Some(i) => rest.take(i + 1),
        None => rest,
    }
}

/// Part `i` of a request line, empty where the line has no such part.
pub open spec fn part(parts: Seq<Seq<char>>, i: int) -> Seq<char> {
    if i < parts.len() {
        parts[i]
    } else {
        Seq::empty()
    }
}

/// `headers` with the header that `line` holds. A line holds one where `": "` parts it in two: the
/// name and the value, without the white space around them. Any other line is passed over.
pub open spec fn with_header_line(
    headers: Map<Seq<char>, Seq<char>>,
    line: Seq<char>,
) -> Map<Seq<char>, Seq<char>> {
    let parts = text::split_terminator(line, ": "@);
    if parts.len() == 2 {
        headers.insert(text::trimmed(parts[0]), text::trimmed(parts[1]))
    } else {
        headers
    }
}

/// The line that ends the headers.
pub open spec fn blank_line() -> Seq<u8> {
    seq![0x0d, 0x0a]
}

/// Reads header lines on top of `headers` until a blank line or the end of `rest`. Gives the
/// headers and what follows them, or `None` where a line is not UTF-8.
pub open spec fn header_block(rest: Seq<u8>, headers: Map<Seq<char>, Seq<char>>) -> Option<
    (Map<Seq<char>, Seq<char>>, Seq<u8>),
>
    decreases rest.len(),
{
    proof {
        lemma_first_line(rest);
    }
    let line = first_line(rest);
    if rest.len() == 0 {
        Some((headers, rest))
    } else if !utf8::valid_utf8(line) {
        None
    } else if line == blank_line() {
        Some((headers, rest.skip(line.len() as int)))
    } else {
        header_block(
            rest.skip(line.len() as int),
            with_header_line(headers, utf8::decode_utf8(line)),
        )
    }
}

/// The length that the headers give for the body, zero where they give none. `None` where what
/// they give is no number, or none that fits.
pub open spec fn declared_length(headers: Map<Seq<char>, Seq<char>>) -> Option<nat> {
    if !headers.contains_key("Content-Length"@) {
        Some(0)
    } else {
        match text::number(headers["Content-Length"@]) {
            Some(n) => if n <= usize::MAX {
                Some(n)
            } else {
                None
            },
            None => None,
        }
    }
}

/// What the request line `parts`, the headers and the bytes after them make.
pub open spec fn assembled(
    parts: Seq<Seq<char>>,
    headers: Map<Seq<char>, Seq<char>>,
    rest: Seq<u8>,
) -> Result<RequestView, Refusal> {
    match declared_length(headers) {
        None => Err(Refusal::InvalidLength),
        Some(length) => if rest.len() != 0 && length == 0 {
            Err(Refusal::LengthRequired)
        } else if rest.len() < length {
            if length > isize::MAX {
                Err(Refusal::ExcessiveLength)
            } else {
                Err(Refusal::ShortBody)
            }
        } else {
            Ok(
                RequestView {
                    method: part(parts, 0),
                    target: part(parts, 1),
                    http_version: part(parts, 2),
                    headers,
                    body: rest.take(length as int),
                },
            )
        },
    }
}

/// The request that `bytes` hold, or why they are refused.
pub open spec fn parsed(bytes: Seq<u8>) -> Result<RequestView, Refusal> {
    let line = first_line(bytes);
    let parts = text::words(utf8::decode_utf8(line));
    if !utf8::valid_utf8(line) {
        Err(Refusal::UnreadableLine)
    } else if parts.len() > 3 {
        Err(Refusal::CrowdedLine)
    } else {
        match header_block(bytes.skip(line.len() as int), Map::empty()) {
            None => Err(Refusal::UnreadableHeader),
            Some((headers, rest)) => assembled(parts, headers, rest),
        }
    }
}

/// The status that a refusal is answered with. A length that cannot be read or provided for is not
/// answered.
pub open spec fn refusal_status(refusal: Refusal) -> Option<StatusCode> {
    match refusal {
        Refusal::UnreadableLine
        | Refusal::CrowdedLine
        | Refusal::UnreadableHeader
        | Refusal::ShortBody => Some(StatusCode::BadRequest),
        Refusal::LengthRequired => Some(StatusCode::LengthRequired),
        Refusal::InvalidLength | Refusal::ExcessiveLength => None,
    }
}

/// A line is a prefix of the text, and is empty only where the text is.
pub proof fn lemma_first_line(rest: Seq<u8>)
    ensures
        first_line(rest).len() <= rest.len(),
        first_line(rest) == rest.take(first_line(rest).len() as int),
        rest.len() > 0 ==> first_line(rest).len() > 0,
{
    rest.index_of_first_ensures(0x0a);
    assert(rest.take(rest.len() as int) == rest);
}

/// A header map with its values as text.
pub open spec fn header_texts(headers: Map<Seq<char>, String>) -> Map<Seq<char>, Seq<char>> {
    headers.map_values(|value: String| value@)
}

impl Default for Request {
    /// A request in which nothing is said.
    fn default() -> (request: Self)
        ensures
            request@ == (RequestView {
                method: Seq::empty(),
                target: Seq::empty(),
                http_version: Seq::empty(),
                headers: Map::empty(),
                body: Seq::empty(),
            }),
    {
        let headers: StringHashMap<String> = StringHashMap::new();
        assert(header_texts(headers@) == Map::<Seq<char>, Seq<char>>::empty());
        Request {
            method: String::new(),
            target: String::new(),
            http_version: String::new(),
            headers,
            body: Vec::new(),
        }
    }
}

impl View for Request {
    type V = RequestView;

    closed spec fn view(&self) -> RequestView {
        RequestView {
            method: self.method@,
            target: self.target@,
            http_version: self.http_version@,
            headers: header_texts(self.headers@),
            body: self.body@,
        }
    }
}

/// Reads a line from a position on, with the line feed that ends it. Gives the line and the
/// position after it, or `None` where the line is not UTF-8.
fn read_line(bytes: &Vec<u8>, pos: usize) -> (line: Option<(String, usize)>)
    requires
        pos <= bytes@.len(),
    ensures
        match line {
            Some((s, end)) => {
                let l = first_line(bytes@.skip(pos as int));
                &&& utf8::valid_utf8(l)
                &&& s@ == utf8::decode_utf8(l)
                &&& end == pos + l.len()
                &&& end <= bytes@.len()
            },
            None => !utf8::valid_utf8(first_line(bytes@.skip(pos as int))),
        },
{
    let len: usize = bytes.len();
    let mut end: usize = pos;
    let ghost rest = bytes@.skip(pos as int);
    while end < len && bytes[end] != 0x0a
        invariant
            len == bytes@.len(),
            pos <= end <= len,
            rest == bytes@.skip(pos as int),
            forall|j: int| 0 <= j < end - pos ==> #[trigger] rest[j] != 0x0a,
        decreases len - end,
    {
        end = end + 1;
    }
    proof {
        rest.index_of_first_ensures(0x0a);
        if end < len {
            assert(rest[end - pos] == 0x0a);
            assert(rest.contains(0x0a));
        } else {
            assert(!rest.contains(0x0a));
        }
    }
    if end < len {
        end = end + 1;
    }
    let line = vstd::slice::slice_to_vec(
        vstd::slice::slice_subrange(bytes.as_slice(), pos, end),
    );
    assert(line@ == first_line(rest));
    match String::from_utf8(line) {
        Ok(s) => {
            proof {
                utf8::encode_utf8_decode_utf8(s@);
            }
            Some((s, end))
        },
        Err(_) => None,
    }
}

/// Puts the header that a line holds, if it holds one, among the headers.
fn read_header(headers: &mut StringHashMap<String>, line: &str)
    ensures
        header_texts(final(headers)@) == with_header_line(header_texts(old(headers)@), line@),
{
    proof {
        reveal_strlit(": ");
    }
    let parts = text::split_terminated(line, ": ");
    assert(parts@.len() == parts.deep_view().len());
    if parts.len() == 2 {
        let name = text::trim(parts[0].as_str());
        let value = text::trim(parts[1].as_str());
        assert(parts.deep_view()[0] == parts@[0]@);
        assert(parts.deep_view()[1] == parts@[1]@);
        let ghost before = headers@;
        headers.insert(name, value);
        assert(header_texts(before.insert(name@, value)) == header_texts(before).insert(
            name@,
            value@,
        ));
    }
}

/// Reads header lines from a position on, until a blank line or the end. Gives the headers and the
/// position after them, or `None` where a line is not UTF-8.
fn read_headers(bytes: &Vec<u8>, start: usize) -> (block: Option<(StringHashMap<String>, usize)>)
    requires
        start <= bytes@.len(),
    ensures
        match block {
            Some((headers, end)) => {
                &&& end <= bytes@.len()
                &&& header_block(bytes@.skip(start as int), Map::empty()) == Some(
                    (header_texts(headers@), bytes@.skip(end as int)),
                )
            },
            None => header_block(bytes@.skip(start as int), Map::empty()) is None,
        },
{
    let mut headers: StringHashMap<String> = StringHashMap::new();
    let mut pos: usize = start;
    let len: usize = bytes.len();
    assert(header_texts(headers@) == Map::<Seq<char>, Seq<char>>::empty());
    while pos < len
        invariant
            len == bytes@.len(),
            start <= pos <= len,
            header_block(bytes@.skip(start as int), Map::empty()) == header_block(
                bytes@.skip(pos as int),
                header_texts(headers@),
            ),
        decreases len - pos,
    {
        let ghost rest = bytes@.skip(pos as int);
        let ghost line = first_line(rest);
        proof {
            lemma_first_line(rest);
        }
        match read_line(bytes, pos) {
            None => {
                return None;
            },
            Some((text, end)) => {
                assert(rest.skip(line.len() as int) == bytes@.skip(end as int));
                if end - pos == 2 && bytes[pos] == 0x0d && bytes[pos + 1] == 0x0a {
                    assert(line == blank_line());
                    return Some((headers, end));
                }
                assert(line != blank_line()) by {
                    if line == blank_line() {
                        assert(line[0] == bytes@[pos as int]);
                        assert(line[1] == bytes@[pos + 1]);
                    }
                }
                read_header(&mut headers, text.as_str());
                pos = end;
            },
        }
    }
    Some((headers, pos))
}

impl Request {
    /// The request that the bytes hold, or why they are refused.
    pub fn parse(req_bytes: &Vec<u8>) -> (result: Result<Request, Refusal>)
        ensures
            match result {
                Ok(request) => parsed(req_bytes@) == Ok::<RequestView, Refusal>(request@),
                Err(refusal) => parsed(req_bytes@) == Err::<RequestView, Refusal>(refusal),
            },
    {
        assert(req_bytes@.skip(0) == req_bytes@);
        let (line, after_line) = match read_line(req_bytes, 0) {
            Some(read) => read,
            None => {
                return Err(Refusal::UnreadableLine);
            },
        };
        let parts = text::split_words(line.as_str());
        assert(parts@.len() == parts.deep_view().len());
        if parts.len() > 3 {
            return Err(Refusal::CrowdedLine);
        }
        let (headers, pos) = match read_headers(req_bytes, after_line) {
            Some(block) => block,
            None => {
                return Err(Refusal::UnreadableHeader);
            },
        };
        let content_length: usize = match headers.get("Content-Length") {
            Some(value) => match text::parse_usize(value.as_str()) {
                Some(n) => n,
                None => {
                    return Err(Refusal::InvalidLength);
                },
            },
            None => 0,
        };
        let len: usize = req_bytes.len();
        let left: usize = outside::remaining(req_bytes.as_slice(), pos);
        if left != 0 && content_length == 0 {
            return Err(Refusal::LengthRequired);
        }
        if left < content_length {
            if content_length > isize::MAX as usize {
                return Err(Refusal::ExcessiveLength);
            }
            return Err(Refusal::ShortBody);
        }
        assert(pos + left == len);
        let body = vstd::slice::slice_to_vec(
            vstd::slice::slice_subrange(req_bytes.as_slice(), pos, pos + content_length),
        );
        assert(body@ == req_bytes@.skip(pos as int).take(content_length as int));
        let http_version = part_or_empty(&parts, 2);
        let target = part_or_empty(&parts, 1);
        let method = part_or_empty(&parts, 0);
        Ok(Request { method, target, http_version, headers, body })
    }

    /// The request that the bytes hold, or the bytes of the response that refuses them. The length
    /// that the headers give for the body, if they do, has to be one that can be read and provided
    /// for.
    pub fn try_from(req_bytes: Vec<u8>) -> (result: Result<Request, Vec<u8>>)
        requires
            parsed(req_bytes@) matches Err(refusal) ==> refusal_status(refusal) is Some,
        ensures
            match result {
                Ok(request) => parsed(req_bytes@) == Ok::<RequestView, Refusal>(request@),
                Err(response) => {
                    &&& parsed(req_bytes@) is Err
                    &&& response@ == response::bare(
                        refusal_status(parsed(req_bytes@)->Err_0)->0,
                    )
                },
            },
    {
        match Request::parse(&req_bytes) {
            Ok(request) => Ok(request),
            Err(refusal) => Err(refused(refusal).unwrap()),
        }
    }

    /// The method, which has to be a supported one.
    pub fn method(&self) -> (m: Method)
        requires
            method::named(self@.method) is Some,
        ensures
            Some(m) == method::named(self@.method),
    {
        Method::from(self.method.as_str())
    }

    /// The method, or `None` where it is not a supported one.
    pub fn supported_method(&self) -> (m: Option<Method>)
        ensures
            m == method::named(self@.method),
    {
        Method::parse(self.method.as_str())
    }

    /// The target.
    pub fn target(&self) -> (target: &str)
        ensures
            target@ == self@.target,
    {
        self.target.as_str()
    }

    /// The version of HTTP that the request line names.
    pub fn http_version(&self) -> (version: &str)
        ensures
            version@ == self@.http_version,
    {
        self.http_version.as_str()
    }

    /// The headers.
    pub fn headers(&self) -> (headers: &StringHashMap<String>)
        ensures
            header_texts(headers@) == self@.headers,
    {
        &self.headers
    }

    /// The body.
    pub fn body(&self) -> (body: &[u8])
        ensures
            body@ == self@.body,
    {
        self.body.as_slice()
    }
}

/// The bytes of the response that a refusal is answered with, if it is answered.
pub fn refused(refusal: Refusal) -> (response: Option<Vec<u8>>)
    ensures
        match refusal_status(refusal) {
            Some(status) => response matches Some(bytes) && bytes@ == response::bare(status),
            None => response is None,
        },
{
    match refusal {
        Refusal::UnreadableLine
        | Refusal::CrowdedLine
        | Refusal::UnreadableHeader
        | Refusal::ShortBody => Some(Response::new(StatusCode::BadRequest).into_bytes()),
        Refusal::LengthRequired => Some(Response::new(StatusCode::LengthRequired).into_bytes()),
        Refusal::InvalidLength | Refusal::ExcessiveLength => None,
    }
}

/// A copy of part `i`, empty where there is no such part.
fn part_or_empty(parts: &Vec<String>, i: usize) -> (p: String)
    ensures
        p@ == part(parts.deep_view(), i as int),
{
    assert(parts@.len() == parts.deep_view().len());
    if i < parts.len() {
        assert(parts.deep_view()[i as int] == parts@[i as int]@);
        parts[i].clone()
    } else {
        String::new()
    }
}

}

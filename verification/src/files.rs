//! Serving files. What touches the file system is left to the caller: `file` and `probed` say what
//! to do next, and the caller hands back what it found.
use crate::encoding;
use crate::outside;
use crate::path;
use crate::request::Request;
use crate::response;
use crate::response::{Html, Response, StatusCode, Svg};
use crate::text;
use vstd::prelude::*;
use vstd::utf8;

verus! {

broadcast use vstd::string::group_string_axioms;

/// What all handlers share.
#[derive(Debug, Clone)]
pub struct Context {
    /// The directory that files are served from, if files are served.
    pub file_dir: Option<Vec<u8>>,
}

impl Default for Context {
    fn default() -> (context: Self)
        ensures
            context.file_dir is None,
    {
        Context { file_dir: None }
    }
}

/// How the contents of a text file are announced.
#[derive(Debug, Clone, Copy, PartialEq, Eq, Structural)]
pub enum TextKind {
    Html,
    Svg,
}

/// What is to be done next for a request for a file.
#[derive(Debug)]
pub enum FileStep {
    /// Send these bytes: the request is dealt with.
    Respond(Vec<u8>),
    /// Find out whether there is a file at this path, and go on with `probed`.
    Probe(Vec<u8>),
    /// Read the text file at this path, and go on with `text_read`.
    ReadText(Vec<u8>, TextKind),
    /// Read the file at this path, and go on with `bytes_read`.
    ReadBytes(Vec<u8>),
}

/// A piece of a target with its percent escapes replaced.
pub open spec fn decoded(piece: Seq<char>) -> Seq<u8> {
    outside::percent_decoded(utf8::encode_utf8(piece))
}

/// The components of the path that a target names: what follows its first slash, split at slashes
/// and then decoded.
pub open spec fn path_pieces(target: Seq<char>) -> Seq<Seq<u8>> {
    text::split_on(target, '/').skip(1).map_values(|piece: Seq<char>| decoded(piece))
}

/// Whether every component is UTF-8.
pub open spec fn all_utf8(pieces: Seq<Seq<u8>>) -> bool {
    forall|i: int| 0 <= i < pieces.len() ==> utf8::valid_utf8(#[trigger] pieces[i])
}

/// The path that is made by pushing the components one after the other.
pub open spec fn collected(pieces: Seq<Seq<u8>>) -> Seq<u8>
    decreases pieces.len(),
{
    if pieces.len() == 0 {
        Seq::empty()
    } else {
        path::pushed(collected(pieces.drop_last()), pieces.last())
    }
}

/// The path of the index file where `path` names no file.
pub open spec fn or_index(path: Seq<u8>) -> Seq<u8> {
    if path::name_of(path) is None {
        path::pushed(path, utf8::encode_utf8("index.html"@))
    } else {
        path
    }
}

/// The path that a target asks for, relative to the served directory. There is none where a
/// component is not UTF-8.
pub open spec fn relative_path(target: Seq<char>) -> Option<Seq<u8>> {
    if all_utf8(path_pieces(target)) {
        Some(or_index(collected(path_pieces(target))))
    } else {
        None
    }
}

/// Decides on a request for a file. A target that cannot be decoded is an internal error, and
/// nothing is found where no directory is served; otherwise the file system is asked.
pub fn file(ctx: &Context, request: &Request) -> (step: FileStep)
    ensures
        match (relative_path(request@.target), ctx.file_dir) {
            (None, _) => step matches FileStep::Respond(bytes) && bytes@ == response::bare(
                StatusCode::InternalServerError,
            ),
            (Some(_), None) => step matches FileStep::Respond(bytes) && bytes@ == response::bare(
                StatusCode::NotFound,
            ),
            (Some(relative), Some(dir)) => step matches FileStep::Probe(p) && p@ == path::pushed(
                dir@,
                relative,
            ),
        },
{
    let relative = match file_path(request.target()) {
        Some(p) => p,
        None => {
            return FileStep::Respond(
                Response::new(StatusCode::InternalServerError).into_bytes(),
            );
        },
    };
    match &ctx.file_dir {
        Some(dir) => FileStep::Probe(path::join(dir, &relative)),
        None => FileStep::Respond(Response::new(StatusCode::NotFound).into_bytes()),
    }
}

/// The path that a target asks for, relative to the served directory, or `None` where the target
/// cannot be decoded.
pub fn file_path(target: &str) -> (relative: Option<Vec<u8>>)
    ensures
        match relative {
            Some(p) => relative_path(target@) == Some(p@),
            None => relative_path(target@) is None,
        },
{
    match spelled_path(target) {
        Some(spelled) => {
            let mut relative = spelled;
            if path::file_name(&relative).is_none() {
                path::push(&mut relative, "index.html".as_bytes());
            }
            Some(relative)
        },
        None => None,
    }
}

/// The path that the components of a target make, or `None` where the target cannot be decoded.
pub fn spelled_path(target: &str) -> (spelled: Option<Vec<u8>>)
    ensures
        match spelled {
            Some(p) => all_utf8(path_pieces(target@)) && p@ == collected(path_pieces(target@)),
            None => !all_utf8(path_pieces(target@)),
        },
{
    let pieces = text::split_str(target, '/');
    let ghost wanted = path_pieces(target@);
    let mut relative: Vec<u8> = Vec::new();
    let mut i: usize = 1;
    proof {
        text::lemma_split_nonempty(target@, '/');
        assert(pieces@.len() == pieces.deep_view().len());
        assert(wanted.take(0) == Seq::<Seq<u8>>::empty());
    }
    while i < pieces.len()
        invariant
            pieces.deep_view() == text::split_on(target@, '/'),
            wanted == path_pieces(target@),
            wanted.len() == pieces@.len() - 1,
            1 <= i <= pieces@.len(),
            forall|j: int| 0 <= j < i - 1 ==> utf8::valid_utf8(#[trigger] wanted[j]),
            relative@ == collected(wanted.take(i - 1)),
        decreases pieces.len() - i,
    {
        assert(pieces.deep_view()[i as int] == pieces@[i as int]@);
        assert(wanted[i - 1] == decoded(pieces@[i as int]@));
        match outside::url_decode(pieces[i].as_str()) {
            Ok(piece) => {
                proof {
                    utf8::encode_utf8_valid_utf8(piece@);
                    assert(wanted.take(i as int).drop_last() == wanted.take(i - 1));
                }
                path::push(&mut relative, piece.as_str().as_bytes());
            },
            Err(_) => {
                return None;
            },
        }
        i = i + 1;
    }
    assert(wanted.take(i - 1) == wanted);
    Some(relative)
}

/// What is done with a file that is there: its extension decides how it is read.
pub open spec fn reads(path: Seq<u8>, step: FileStep) -> bool {
    let extension = path::extension_of(path);
    if extension == Some(utf8::encode_utf8("html"@)) {
        step matches FileStep::ReadText(p, TextKind::Html) && p@ == path
    } else if extension == Some(utf8::encode_utf8("svg"@)) {
        step matches FileStep::ReadText(p, TextKind::Svg) && p@ == path
    } else {
        step matches FileStep::ReadBytes(p) && p@ == path
    }
}

/// Goes on after a path was looked for. `exists` is `None` where that could not be found out.
pub fn probed(path: Vec<u8>, exists: Option<bool>) -> (step: FileStep)
    ensures
        if exists == Some(true) {
            reads(path@, step)
        } else {
            step matches FileStep::Respond(bytes) && bytes@ == response::bare(StatusCode::NotFound)
        },
        exists == Some(true) && path::extension_of(path@) == Some(utf8::encode_utf8("html"@)) ==> {
            step matches FileStep::ReadText(p, TextKind::Html) && p@ == path@
        },
        exists == Some(true) && path::extension_of(path@) == Some(utf8::encode_utf8("svg"@)) ==> {
            step matches FileStep::ReadText(p, TextKind::Svg) && p@ == path@
        },
        exists == Some(true) && path::extension_of(path@) != Some(utf8::encode_utf8("html"@))
            && path::extension_of(path@) != Some(utf8::encode_utf8("svg"@)) ==> {
            step matches FileStep::ReadBytes(p) && p@ == path@
        },
{
    proof {
        lemma_html_is_not_svg();
    }
    match exists {
        Some(true) => if path::has_extension(&path, "html".as_bytes()) {
            FileStep::ReadText(path, TextKind::Html)
        } else if path::has_extension(&path, "svg".as_bytes()) {
            FileStep::ReadText(path, TextKind::Svg)
        } else {
            FileStep::ReadBytes(path)
        },
        _ => FileStep::Respond(Response::new(StatusCode::NotFound).into_bytes()),
    }
}

/// The two extensions of text files are not the same.
pub proof fn lemma_html_is_not_svg()
    ensures
        utf8::encode_utf8("html"@) != utf8::encode_utf8("svg"@),
{
    reveal_strlit("html");
    reveal_strlit("svg");
    utf8::encode_utf8_decode_utf8("html"@);
    utf8::encode_utf8_decode_utf8("svg"@);
    assert("html"@.len() != "svg"@.len());
}

/// The media type of a text file.
pub open spec fn media_type(kind: TextKind) -> Seq<char> {
    match kind {
        TextKind::Html => "text/html"@,
        TextKind::Svg => "image/svg+xml"@,
    }
}

/// The response that carries a text file.
pub fn text_read(kind: TextKind, content: String) -> (bytes: Vec<u8>)
    ensures
        bytes@ == response::full(
            StatusCode::Success,
            media_type(kind),
            utf8::encode_utf8(content@),
        ),
{
    match kind {
        TextKind::Html => Response::new(StatusCode::Success).with_body(Html(content)).into_bytes(),
        TextKind::Svg => Response::new(StatusCode::Success).with_body(Svg(content)).into_bytes(),
    }
}

/// The response that carries any other file.
pub fn bytes_read(content: Vec<u8>) -> (bytes: Vec<u8>)
    ensures
        bytes@ == response::full(StatusCode::Success, "application/octet-stream"@, content@),
{
    Response::new(StatusCode::Success).with_body(content).into_bytes()
}

/// The path that a target asks for always names a file.
pub proof fn law_path_names_a_file(target: Seq<char>)
    ensures
        relative_path(target) matches Some(p) ==> path::name_of(p) is Some,
{
    let index = utf8::encode_utf8("index.html"@);
    reveal_strlit("index.html");
    assert(utf8::is_ascii_chars("index.html"@));
    utf8::is_ascii_chars_encode_utf8("index.html"@);
    assert forall|i: int| 0 <= i < index.len() implies index[i] != path::SLASH by {
        assert("index.html"@[i] as u8 == index[i]);
    }
    text::lemma_split_one(index, path::SLASH);
    assert(path::name_of(index) == Some(index));
    path::law_name_is_kept(collected(path_pieces(target)), index);
}

/// How a file is read goes by the target alone, whatever directory is served.
pub proof fn law_kind_goes_by_the_target(dir: Seq<u8>, target: Seq<char>)
    ensures
        relative_path(target) matches Some(p) ==> path::extension_of(path::pushed(dir, p))
            == path::extension_of(p),
{
    law_path_names_a_file(target);
    if let Some(p) = relative_path(target) {
        path::law_name_is_kept(dir, p);
    }
}

/// Without escapes there is nothing to decode.
proof fn lemma_nothing_to_decode(s: Seq<u8>)
    requires
        forall|i: int| 0 <= i < s.len() ==> #[trigger] s[i] != 0x25,
    ensures
        outside::percent_decoded(s) == s,
    decreases s.len(),
{
    if s.len() > 0 {
        lemma_nothing_to_decode(s.skip(1));
        assert(seq![s[0]] + s.skip(1) == s);
    }
}

/// Components without slashes, of which only the last may be empty, are put together by slashes.
pub proof fn lemma_collected_joins(pieces: Seq<Seq<char>>, encoded: Seq<Seq<u8>>)
    requires
        pieces.len() > 0,
        encoded.len() == pieces.len(),
        forall|i: int|
            0 <= i < pieces.len() ==> #[trigger] encoded[i] == utf8::encode_utf8(pieces[i]),
        forall|i: int| 0 <= i < pieces.len() ==> !(#[trigger] pieces[i]).contains('/'),
        forall|i: int| 0 <= i < pieces.len() - 1 ==> (#[trigger] pieces[i]).len() > 0,
    ensures
        collected(encoded) == utf8::encode_utf8(text::join_with(pieces, '/')),
    decreases pieces.len(),
{
    let last = pieces.last();
    assert forall|i: int| 0 <= i < last.len() implies #[trigger] last[i] != '/' by {
        assert(!pieces[pieces.len() - 1].contains(last[i]) || last[i] != '/');
    }
    encoding::lemma_encode_lacks(last, '/');
    if pieces.len() == 1 {
        reveal_with_fuel(collected, 2);
        assert(encoded.last() == utf8::encode_utf8(last));
        assert(Seq::<u8>::empty() + encoded.last() == encoded.last());
    } else {
        let front = pieces.drop_last();
        let joined = text::join_with(front, '/');
        lemma_collected_joins(front, encoded.drop_last());
        lemma_joined_ends(front);
        encoding::lemma_encode_concat(joined, seq!['/']);
        encoding::lemma_encode_concat(joined.push('/'), last);
        assert(joined + seq!['/'] == joined.push('/'));
        assert(utf8::is_ascii_chars(seq!['/']));
        utf8::is_ascii_chars_encode_utf8(seq!['/']);
        assert(seq!['/'][0] as u8 == utf8::encode_utf8(seq!['/'])[0]);
        assert(utf8::encode_utf8(seq!['/']) == seq![path::SLASH]);
        assert(encoded.last() == utf8::encode_utf8(last));
        assert(collected(encoded) == collected(encoded.drop_last()).push(path::SLASH)
            + encoded.last());
    }
}

/// A path that ends in a component does not end in a slash.
proof fn lemma_joined_ends(pieces: Seq<Seq<char>>)
    requires
        pieces.len() > 0,
        pieces.last().len() > 0,
        !pieces.last().contains('/'),
    ensures
        utf8::encode_utf8(text::join_with(pieces, '/')).len() > 0,
        utf8::encode_utf8(text::join_with(pieces, '/')).last() != path::SLASH,
{
    let last = pieces.last();
    let encoded = utf8::encode_utf8(last);
    assert forall|i: int| 0 <= i < last.len() implies #[trigger] last[i] != '/' by {
        assert(last.contains(last[i]));
    }
    encoding::lemma_encode_lacks(last, '/');
    assert(encoded.len() > 0);
    assert(encoded[encoded.len() - 1] != path::SLASH);
    if pieces.len() > 1 {
        let front = text::join_with(pieces.drop_last(), '/').push('/');
        encoding::lemma_encode_concat(front, last);
    }
}

/// A target without escapes, and without an empty component but for the last, asks for the path
/// that it spells after its first slash, or for the index file there.
pub proof fn law_plain_target_is_its_path(spelled: Seq<char>)
    requires
        !spelled.contains('%'),
        forall|i: int|
            0 <= i < text::split_on(spelled, '/').len() - 1 ==> (#[trigger] text::split_on(
                spelled,
                '/',
            )[i]).len() > 0,
    ensures
        relative_path(seq!['/'] + spelled) == Some(or_index(utf8::encode_utf8(spelled))),
{
    let target = seq!['/'] + spelled;
    let none = Seq::<char>::empty();
    let pieces = text::split_on(spelled, '/');
    let encoded = path_pieces(target);
    assert(target == none.push('/') + spelled);
    text::lemma_split_on_concat(none, '/', spelled);
    text::lemma_split_one(none, '/');
    text::lemma_split_nonempty(spelled, '/');
    assert(text::split_on(target, '/').skip(1) == pieces);
    text::law_split_joins_back(spelled, '/');
    assert forall|i: int| 0 <= i < pieces.len() implies #[trigger] encoded[i] == utf8::encode_utf8(
        pieces[i],
    ) by {
        lemma_piece_within(spelled, i);
        let piece = pieces[i];
        assert forall|j: int| 0 <= j < piece.len() implies #[trigger] piece[j] != '%' by {
            assert(spelled.contains(piece[j]));
        }
        encoding::lemma_encode_lacks(piece, '%');
        lemma_nothing_to_decode(utf8::encode_utf8(piece));
        assert(encoded[i] == decoded(piece));
    }
    assert(all_utf8(encoded)) by {
        assert forall|i: int| 0 <= i < encoded.len() implies utf8::valid_utf8(
            #[trigger] encoded[i],
        ) by {
            utf8::encode_utf8_valid_utf8(pieces[i]);
        }
    }
    lemma_collected_joins(pieces, encoded);
}

/// A piece of a text holds nothing that the text does not hold.
proof fn lemma_piece_within(s: Seq<char>, i: int)
    requires
        0 <= i < text::split_on(s, '/').len(),
    ensures
        forall|j: int|
            0 <= j < text::split_on(s, '/')[i].len() ==> s.contains(
                #[trigger] text::split_on(s, '/')[i][j],
            ),
    decreases s.len(),
{
    let piece = text::split_on(s, '/')[i];
    if s.len() > 0 {
        let front = s.drop_last();
        let before = text::split_on(front, '/');
        text::lemma_split_nonempty(front, '/');
        if i < before.len() {
            lemma_piece_within(front, i);
        }
        assert forall|j: int| 0 <= j < piece.len() implies s.contains(#[trigger] piece[j]) by {
            if i < before.len() && j < before[i].len() {
                assert(piece[j] == before[i][j]);
                let k = choose|k: int| 0 <= k < front.len() && front[k] == piece[j];
                assert(s[k] == piece[j]);
            } else {
                assert(s[s.len() - 1] == piece[j]);
            }
        }
    }
}

}

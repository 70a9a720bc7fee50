//! What holds of paths and of requests for files: which path a target asks for, and how the file
//! there is read.
use crate::encoding;
use crate::files;
use crate::files::{FileStep, TextKind};
use crate::outside;
use crate::path;
use crate::text;
use crate::text_laws;
use vstd::prelude::*;
use vstd::utf8;

verus! {

/// A path that is extended: what starts with a slash stands for itself; anything else comes after
/// the path, with one slash between the two unless the path is empty or ends in a slash.
pub proof fn law_path_is_extended(path: Seq<u8>, next: Seq<u8>)
    ensures
        next.len() > 0 && next[0] == 0x2f ==> path::pushed(path, next) == next,
        (next.len() == 0 || next[0] != 0x2f) && path.len() == 0 ==> path::pushed(path, next)
            == next,
        (next.len() == 0 || next[0] != 0x2f) && path.len() > 0 && path.last() == 0x2f
            ==> path::pushed(path, next) == path + next,
        (next.len() == 0 || next[0] != 0x2f) && path.len() > 0 && path.last() != 0x2f
            ==> path::pushed(path, next) == path + seq![0x2fu8] + next,
{
    assert(path.push(0x2f) + next == path + seq![0x2fu8] + next);
    if path.len() == 0 {
        assert(path + next == next);
    }
}

/// The pieces of a path with one more component.
proof fn lemma_pieces_of_extended(path: Seq<u8>, piece: Seq<u8>)
    requires
        !piece.contains(0x2f),
    ensures
        text::split_on(path + seq![0x2fu8] + piece, path::SLASH) == text::split_on(
            path,
            path::SLASH,
        ).push(piece),
        text::split_on(piece, path::SLASH) == seq![piece],
{
    text_laws::law_split_at_mark(path, path::SLASH, piece);
    text_laws::law_split_without_mark(piece, path::SLASH);
    let front = text::split_on(path, path::SLASH);
    assert(front + seq![piece] == front.push(piece));
}

/// The name in a path is its last component, whatever comes before it.
pub proof fn law_last_component_is_the_name(dir: Seq<u8>, name: Seq<u8>)
    requires
        name.len() > 0,
        !name.contains(0x2f),
        name != seq![0x2eu8],
        name != seq![0x2eu8, 0x2eu8],
    ensures
        path::name_of(name) == Some(name),
        path::name_of(dir + seq![0x2fu8] + name) == Some(name),
{
    lemma_pieces_of_extended(dir, name);
    assert(text::split_on(dir, path::SLASH).push(name).last() == name);
    assert(seq![name].last() == name);
}

/// A slash at the end, and a component of one dot, leave the name in a path as it is; two dots and
/// paths without a component have no name.
pub proof fn law_names_past_slashes_and_dots(path: Seq<u8>)
    ensures
        path::name_of(path + seq![0x2fu8]) == path::name_of(path),
        path::name_of(path + seq![0x2fu8, 0x2eu8]) == path::name_of(path),
        path::name_of(path + seq![0x2fu8, 0x2eu8, 0x2eu8]) is None,
        path::name_of(Seq::empty()) is None,
        path::name_of(seq![0x2eu8]) is None,
        path::name_of(seq![0x2eu8, 0x2eu8]) is None,
{
    let none = Seq::<u8>::empty();
    let dot = seq![0x2eu8];
    let dots = seq![0x2eu8, 0x2eu8];
    let front = text::split_on(path, path::SLASH);
    lemma_pieces_of_extended(path, none);
    lemma_pieces_of_extended(path, dot);
    lemma_pieces_of_extended(path, dots);
    assert(path + seq![0x2fu8] + none == path + seq![0x2fu8]);
    assert(path + seq![0x2fu8] + dot == path + seq![0x2fu8, 0x2eu8]);
    assert(path + seq![0x2fu8] + dots == path + seq![0x2fu8, 0x2eu8, 0x2eu8]);
    assert(front.push(none).drop_last() == front);
    assert(front.push(dot).drop_last() == front);
    assert(front.push(dots).last() == dots);
    assert(dots.len() != dot.len());
    reveal_with_fuel(path::last_name, 2);
    assert(seq![none].drop_last() == Seq::<Seq<u8>>::empty());
    assert(seq![dot].drop_last() == Seq::<Seq<u8>>::empty());
    assert(seq![none].last() == none);
    assert(seq![dot].last() == dot);
    assert(seq![dots].last() == dots);
}

/// The extension of a path is what follows the last dot of the name in it. A name without a dot
/// has none, and so has one whose only dot is at its start, and a path without a name.
pub proof fn law_extension_follows_the_last_dot(path: Seq<u8>, stem: Seq<u8>, extension: Seq<u8>)
    requires
        !extension.contains(0x2e),
    ensures
        stem.len() > 0 && path::name_of(path) == Some(stem + seq![0x2eu8] + extension)
            ==> path::extension_of(path) == Some(extension),
        path::name_of(path) == Some(seq![0x2eu8] + extension) ==> path::extension_of(path) is None,
        path::name_of(path) == Some(extension) ==> path::extension_of(path) is None,
        path::name_of(path) is None ==> path::extension_of(path) is None,
{
    lemma_last_dot(stem, extension);
    lemma_last_dot(Seq::empty(), extension);
    assert(Seq::<u8>::empty() + seq![0x2eu8] + extension == seq![0x2eu8] + extension);
    extension.index_of_last_ensures(path::DOT);
    let name = stem + seq![0x2eu8] + extension;
    assert(name.skip((stem.len() + 1) as int) == extension);
}

proof fn lemma_last_dot(stem: Seq<u8>, extension: Seq<u8>)
    requires
        !extension.contains(0x2e),
    ensures
        (stem + seq![0x2eu8] + extension).index_of_last(path::DOT) == Some(stem.len() as int),
{
    let name = stem + seq![0x2eu8] + extension;
    let n = stem.len() as int;
    assert(name[n] == 0x2e);
    assert(name.contains(0x2e));
    name.index_of_last_ensures(path::DOT);
    let i = name.index_of_last(path::DOT)->0;
    if i > n {
        assert(name[i] == extension[i - n - 1]);
        assert(extension.contains(extension[i - n - 1]));
    }
}

/// A file in any directory has the extension that its name ends in.
pub proof fn law_file_has_its_extension(dir: Seq<u8>, stem: Seq<u8>, extension: Seq<u8>)
    requires
        stem.len() > 0,
        !stem.contains(0x2f),
        !extension.contains(0x2f),
        !extension.contains(0x2e),
        extension.len() > 0 || stem != seq![0x2eu8],
    ensures
        path::extension_of(dir + seq![0x2fu8] + (stem + seq![0x2eu8] + extension)) == Some(
            extension,
        ),
{
    let name = stem + seq![0x2eu8] + extension;
    if name.contains(0x2f) {
        let i = choose|i: int| 0 <= i < name.len() && name[i] == 0x2f;
        if i < stem.len() {
            assert(stem.contains(stem[i]));
        } else if i > stem.len() {
            assert(extension.contains(extension[i - stem.len() - 1]));
        }
    }
    assert(name.len() >= 2);
    if name == seq![0x2eu8, 0x2eu8] {
        assert(name.len() == stem.len() + 1 + extension.len());
        if extension.len() > 0 {
            assert(name.last() == extension.last());
            assert(extension.contains(extension[extension.len() - 1]));
        } else {
            assert(stem == name.take(1));
            assert(stem == seq![0x2eu8]);
        }
    }
    law_last_component_is_the_name(dir, name);
    law_extension_follows_the_last_dot(dir + seq![0x2fu8] + name, stem, extension);
}

/// The value of a hexadecimal digit, in either case.
pub open spec fn hex_digit(c: char) -> Option<int> {
    if '0' <= c <= '9' {
        Some(c as int - '0' as int)
    } else if 'a' <= c <= 'f' {
        Some(c as int - 'a' as int + 10)
    } else if 'A' <= c <= 'F' {
        Some(c as int - 'A' as int + 10)
    } else {
        None
    }
}

proof fn lemma_decode_passes(a: Seq<u8>, b: Seq<u8>)
    requires
        forall|i: int| 0 <= i < a.len() ==> #[trigger] a[i] != 0x25,
    ensures
        outside::percent_decoded(a + b) == a + outside::percent_decoded(b),
    decreases a.len(),
{
    if a.len() == 0 {
        assert(a + b == b);
        assert(a + outside::percent_decoded(b) == outside::percent_decoded(b));
    } else {
        assert((a + b)[0] == a[0]);
        assert((a + b).skip(1) == a.skip(1) + b);
        assert forall|i: int| 0 <= i < a.skip(1).len() implies #[trigger] a.skip(1)[i] != 0x25 by {
            assert(a.skip(1)[i] == a[i + 1]);
        }
        lemma_decode_passes(a.skip(1), b);
        assert(seq![a[0]] + (a.skip(1) + outside::percent_decoded(b)) == a
            + outside::percent_decoded(b));
    }
}

proof fn lemma_ascii(c: char)
    requires
        c <= '\u{7f}',
    ensures
        utf8::encode_utf8(seq![c]) == seq![c as u8],
{
    let s = seq![c];
    assert(utf8::is_ascii_chars(s));
    utf8::is_ascii_chars_encode_utf8(s);
    assert(s[0] as u8 == utf8::encode_utf8(s)[0]);
}

/// The first byte of a text is ASCII only where its first character is that byte.
proof fn lemma_first_byte(s: Seq<char>)
    requires
        s.len() > 0,
    ensures
        utf8::encode_utf8(s).len() > 0,
        utf8::encode_utf8(s)[0] < 0x80 ==> s[0] == utf8::encode_utf8(s)[0] as char,
        utf8::encode_utf8(s) == utf8::encode_utf8(seq![s[0]]) + utf8::encode_utf8(s.skip(1)),
{
    let first = seq![s[0]];
    assert(s == first + s.skip(1));
    encoding::lemma_encode_concat(first, s.skip(1));
    let bytes = utf8::encode_utf8(first);
    assert(bytes.len() > 0) by {
        assert(utf8::encode_scalar(first[0] as u32).len() > 0);
    }
    let b = bytes[0];
    assert(utf8::encode_utf8(s)[0] == b);
    if b < 0x80 && s[0] != b as char {
        encoding::lemma_encode_lacks(first, b as char);
        assert((b as char) as u8 == b);
    }
}

/// Decoding goes through a target from left to right. A percent sign and two hexadecimal digits
/// stand for one byte; any other character stands for itself, and so does a percent sign without
/// two such digits after it.
pub proof fn law_escapes_are_decoded(high: char, low: char, c: char, rest: Seq<char>)
    ensures
        files::decoded(Seq::empty()) == Seq::<u8>::empty(),
        hex_digit(high) is Some && hex_digit(low) is Some ==> files::decoded(
            seq!['%', high, low] + rest,
        ) == seq![(16 * hex_digit(high)->0 + hex_digit(low)->0) as u8] + files::decoded(rest),
        c != '%' ==> files::decoded(seq![c] + rest) == utf8::encode_utf8(seq![c])
            + files::decoded(rest),
        (rest.len() < 2 || hex_digit(rest[0]) is None || hex_digit(rest[1]) is None)
            ==> files::decoded(seq!['%'] + rest) == seq![0x25u8] + files::decoded(rest),
{
    let bytes = utf8::encode_utf8(rest);
    encoding::lemma_encode_concat(seq![c], rest);
    encoding::lemma_encode_concat(seq!['%'], rest);
    lemma_ascii('%');
    if c != '%' {
        assert forall|i: int| 0 <= i < seq![c].len() implies #[trigger] seq![c][i] != '%' by {
        }
        encoding::lemma_encode_lacks(seq![c], '%');
        lemma_decode_passes(utf8::encode_utf8(seq![c]), bytes);
    }
    if hex_digit(high) is Some && hex_digit(low) is Some {
        lemma_escape_is_decoded(high, low, rest);
    }
    if rest.len() < 2 || hex_digit(rest[0]) is None || hex_digit(rest[1]) is None {
        lemma_lone_percent(rest);
    }
}

proof fn lemma_hex_byte(c: char)
    requires
        hex_digit(c) is Some,
    ensures
        c <= '\u{7f}',
        outside::hex_value(c as u8) is Some,
        outside::hex_value(c as u8)->0 == hex_digit(c)->0,
{
}

proof fn lemma_escape_is_decoded(high: char, low: char, rest: Seq<char>)
    requires
        hex_digit(high) is Some,
        hex_digit(low) is Some,
    ensures
        files::decoded(seq!['%', high, low] + rest) == seq![
            (16 * hex_digit(high)->0 + hex_digit(low)->0) as u8,
        ] + files::decoded(rest),
{
    let escape = seq!['%', high, low];
    let bytes = utf8::encode_utf8(rest);
    lemma_hex_byte(high);
    lemma_hex_byte(low);
    lemma_ascii('%');
    lemma_ascii(high);
    lemma_ascii(low);
    assert(escape == seq!['%'] + seq![high] + seq![low]);
    encoding::lemma_encode_concat(seq!['%'], seq![high]);
    encoding::lemma_encode_concat(seq!['%'] + seq![high], seq![low]);
    encoding::lemma_encode_concat(escape, rest);
    let s = utf8::encode_utf8(escape + rest);
    assert(utf8::encode_utf8(escape) == seq![0x25u8, high as u8, low as u8]);
    assert(s == seq![0x25u8, high as u8, low as u8] + bytes);
    assert(s.skip(3) == bytes);
}

proof fn lemma_lone_percent(rest: Seq<char>)
    requires
        rest.len() < 2 || hex_digit(rest[0]) is None || hex_digit(rest[1]) is None,
    ensures
        files::decoded(seq!['%'] + rest) == seq![0x25u8] + files::decoded(rest),
{
    let bytes = utf8::encode_utf8(rest);
    encoding::lemma_encode_concat(seq!['%'], rest);
    lemma_ascii('%');
    let s = utf8::encode_utf8(seq!['%'] + rest);
    assert(s == seq![0x25u8] + bytes);
    assert(s.skip(1) == bytes);
    if s.len() >= 3 && outside::hex_value(s[1]) is Some && outside::hex_value(s[2]) is Some {
        assert(rest.len() > 0);
        lemma_first_byte(rest);
        assert(s[1] == bytes[0]);
        assert(hex_digit(rest[0]) is Some);
        lemma_hex_byte(rest[0]);
        lemma_ascii(rest[0]);
        let more = utf8::encode_utf8(rest.skip(1));
        assert(bytes == seq![rest[0] as u8] + more);
        assert(s[2] == more[0]);
        if rest.len() == 1 {
            assert(rest.skip(1) == Seq::<char>::empty());
            assert(more.len() == 0);
        } else {
            lemma_first_byte(rest.skip(1));
            assert(rest.skip(1)[0] == rest[1]);
            assert(hex_digit(rest[1]) is Some);
        }
    }
}

/// The components of the path that a target names are what stands after each of its slashes, each
/// of them decoded.
pub proof fn law_every_component_is_decoded(first: Seq<char>, components: Seq<Seq<char>>)
    requires
        !first.contains('/'),
        forall|i: int| 0 <= i < components.len() ==> !(#[trigger] components[i]).contains('/'),
    ensures
        ({
            let pieces = files::path_pieces(text_laws::strung(first, components, '/'));
            &&& pieces.len() == components.len()
            &&& forall|i: int|
                0 <= i < pieces.len() ==> #[trigger] pieces[i] == files::decoded(components[i])
        }),
{
    let target = text_laws::strung(first, components, '/');
    text_laws::law_split_undoes_stringing(first, components, '/');
    assert((seq![first] + components).skip(1) == components);
}

/// A target asks for a path just where every component of it is UTF-8 once it is decoded.
pub proof fn law_target_has_to_decode(first: Seq<char>, components: Seq<Seq<char>>)
    requires
        !first.contains('/'),
        forall|i: int| 0 <= i < components.len() ==> !(#[trigger] components[i]).contains('/'),
    ensures
        files::relative_path(text_laws::strung(first, components, '/')) is Some <==> forall|i: int|
            0 <= i < components.len() ==> utf8::valid_utf8(
                #[trigger] files::decoded(components[i]),
            ),
        files::all_utf8(files::path_pieces(text_laws::strung(first, components, '/')))
            <==> forall|i: int|
            0 <= i < components.len() ==> utf8::valid_utf8(
                #[trigger] files::decoded(components[i]),
            ),
{
    let pieces = files::path_pieces(text_laws::strung(first, components, '/'));
    law_every_component_is_decoded(first, components);
    if files::all_utf8(pieces) {
        assert forall|i: int| 0 <= i < components.len() implies utf8::valid_utf8(
            #[trigger] files::decoded(components[i]),
        ) by {
            assert(utf8::valid_utf8(pieces[i]));
        }
    } else {
        let i = choose|i: int| 0 <= i < pieces.len() && !utf8::valid_utf8(#[trigger] pieces[i]);
        assert(!utf8::valid_utf8(files::decoded(components[i])));
    }
}

/// Components make a path one after the other: none make the empty path, and each is pushed on the
/// path of those before it.
pub proof fn law_components_are_pushed_in_turn(pieces: Seq<Seq<u8>>, last: Seq<u8>)
    ensures
        files::collected(Seq::empty()) == Seq::<u8>::empty(),
        files::collected(pieces.push(last)) == path::pushed(files::collected(pieces), last),
{
    assert(pieces.push(last).drop_last() == pieces);
    assert(pieces.push(last).last() == last);
}

/// The path that a target asks for is the one that its components make; where that names no file,
/// it is `index.html` there.
pub proof fn law_target_asks_for_its_path(target: Seq<char>)
    ensures
        files::relative_path(target) matches Some(p) ==> {
            let spelled = files::collected(files::path_pieces(target));
            &&& path::name_of(spelled) is Some ==> p == spelled
            &&& path::name_of(spelled) is None ==> p == path::pushed(
                spelled,
                utf8::encode_utf8("index.html"@),
            )
        },
{
}

/// Whether a component of a target writes bytes: each of its percent signs starts an escape, which
/// writes one byte, and every other character of it writes itself.
pub open spec fn writes(component: Seq<char>, bytes: Seq<u8>) -> bool
    decreases component.len(),
{
    if component.len() == 0 {
        bytes.len() == 0
    } else if component[0] == '%' {
        &&& component.len() >= 3
        &&& hex_digit(component[1]) is Some
        &&& hex_digit(component[2]) is Some
        &&& bytes.len() > 0
        &&& bytes[0] == 16 * hex_digit(component[1])->0 + hex_digit(component[2])->0
        &&& writes(component.skip(3), bytes.skip(1))
    } else {
        let own = utf8::encode_utf8(seq![component[0]]);
        &&& own.is_prefix_of(bytes)
        &&& writes(component.skip(1), bytes.skip(own.len() as int))
    }
}

/// A component decodes to the bytes that it writes, whichever of them are escaped.
pub proof fn law_component_decodes_to_what_it_writes(component: Seq<char>, bytes: Seq<u8>)
    requires
        writes(component, bytes),
    ensures
        files::decoded(component) == bytes,
    decreases component.len(),
{
    if component.len() == 0 {
        law_escapes_are_decoded('0', '0', 'a', component);
        assert(component == Seq::<char>::empty());
        assert(bytes == Seq::<u8>::empty());
    } else if component[0] == '%' {
        let (high, low) = (component[1], component[2]);
        let rest = component.skip(3);
        law_component_decodes_to_what_it_writes(rest, bytes.skip(1));
        law_escapes_are_decoded(high, low, 'a', rest);
        assert(component == seq!['%', high, low] + rest);
        assert(bytes == seq![bytes[0]] + bytes.skip(1));
    } else {
        let c = component[0];
        let own = utf8::encode_utf8(seq![c]);
        let rest = component.skip(1);
        law_component_decodes_to_what_it_writes(rest, bytes.skip(own.len() as int));
        law_escapes_are_decoded('0', '0', c, rest);
        assert(component == seq![c] + rest);
        assert(own == bytes.subrange(0, own.len() as int));
        assert(bytes == own + bytes.skip(own.len() as int));
    }
}

/// A target whose components write texts, with escapes in any of them, asks for the path that the
/// texts spell with slashes between them, or for `index.html` where that names no file.
pub proof fn law_escaped_target_is_its_path(texts: Seq<Seq<char>>, components: Seq<Seq<char>>)
    requires
        texts.len() > 0,
        components.len() == texts.len(),
        forall|i: int| 0 <= i < components.len() ==> !(#[trigger] components[i]).contains('/'),
        forall|i: int| 0 <= i < texts.len() ==> !(#[trigger] texts[i]).contains('/'),
        forall|i: int| 0 <= i < texts.len() - 1 ==> (#[trigger] texts[i]).len() > 0,
        forall|i: int|
            0 <= i < texts.len() ==> writes(
                #[trigger] components[i],
                utf8::encode_utf8(texts[i]),
            ),
    ensures
        ({
            let spelled = utf8::encode_utf8(text_laws::strung(texts[0], texts.skip(1), '/'));
            let asked = files::relative_path(text_laws::strung(Seq::empty(), components, '/'));
            &&& path::name_of(spelled) is Some ==> asked == Some(spelled)
            &&& path::name_of(spelled) is None ==> asked == Some(
                path::pushed(spelled, utf8::encode_utf8("index.html"@)),
            )
        }),
{
    let none = Seq::<char>::empty();
    let target = text_laws::strung(none, components, '/');
    let pieces = files::path_pieces(target);
    law_every_component_is_decoded(none, components);
    assert forall|i: int| 0 <= i < texts.len() implies #[trigger] pieces[i] == utf8::encode_utf8(
        texts[i],
    ) by {
        assert(writes(components[i], utf8::encode_utf8(texts[i])));
        law_component_decodes_to_what_it_writes(components[i], utf8::encode_utf8(texts[i]));
    }
    assert(files::all_utf8(pieces)) by {
        assert forall|i: int| 0 <= i < pieces.len() implies utf8::valid_utf8(
            #[trigger] pieces[i],
        ) by {
            utf8::encode_utf8_valid_utf8(texts[i]);
        }
    }
    files::lemma_collected_joins(texts, pieces);
    text_laws::law_join_strings(texts[0], texts.skip(1), '/');
    assert(seq![texts[0]] + texts.skip(1) == texts);
    law_target_asks_for_its_path(target);
}

/// A file is read by its extension: one that is read as SVG has the extension `svg`, one that is
/// read as HTML has the extension `html`, and any other is read as bytes; each at its path.
pub proof fn law_extension_decides(path: Seq<u8>, step: FileStep)
    requires
        files::reads(path, step),
    ensures
        match step {
            FileStep::ReadText(p, TextKind::Html) => {
                &&& p@ == path
                &&& path::extension_of(path) == Some(utf8::encode_utf8("html"@))
            },
            FileStep::ReadText(p, TextKind::Svg) => {
                &&& p@ == path
                &&& path::extension_of(path) == Some(utf8::encode_utf8("svg"@))
            },
            FileStep::ReadBytes(p) => {
                &&& p@ == path
                &&& path::extension_of(path) != Some(utf8::encode_utf8("html"@))
                &&& path::extension_of(path) != Some(utf8::encode_utf8("svg"@))
            },
            _ => false,
        },
{
}

}

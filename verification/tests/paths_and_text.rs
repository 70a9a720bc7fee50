use http_server::path;
use http_server::text;
use std::path::{Path, PathBuf};

const PATHS: [&str; 26] = [
    "", "/", "//", ".", "./", "..", "../", "a", "a/", "a/b", "a//b", "a/b/", "/a", "/a/", "a/.",
    "a/..", "./a", "/.", "/..", "a/./.", ".html", "a.html", "a.b.html", "a.", "a/.html/", "..html",
];

#[test]
fn paths_join_as_in_the_standard_library() {
    for a in PATHS {
        for b in PATHS {
            let expected = PathBuf::from(a).join(b);
            let joined = path::join(&a.as_bytes().to_vec(), &b.as_bytes().to_vec());
            assert_eq!(joined, expected.to_str().unwrap().as_bytes(), "{a} {b}");
        }
    }
}

#[test]
fn file_names_are_those_of_the_standard_library() {
    for p in PATHS {
        let expected = Path::new(p)
            .file_name()
            .map(|n| n.to_str().unwrap().as_bytes().to_vec());
        assert_eq!(path::file_name(&p.as_bytes().to_vec()), expected, "{p}");
    }
}

#[test]
fn extensions_are_those_of_the_standard_library() {
    for p in PATHS {
        for e in ["html", "", "b.html", "svg"] {
            let expected = Path::new(p).extension().and_then(|x| x.to_str()) == Some(e);
            assert_eq!(
                path::has_extension(&p.as_bytes().to_vec(), e.as_bytes()),
                expected,
                "{p} {e}"
            );
        }
    }
}

const TEXTS: [&str; 14] = [
    "", " ", "a", "/", "a/b", "//", " a b ", "\u{3000}a\u{85}b\n", "a: b", "a: b: c", ": ", "a: ",
    ":: : ", "x\u{1f600}: \u{e9} ",
];

#[test]
fn texts_split_as_in_the_standard_library() {
    for t in TEXTS {
        assert_eq!(text::split_str(t, '/'), t.split('/').collect::<Vec<_>>());
        assert_eq!(text::split_words(t), t.split_whitespace().collect::<Vec<_>>());
        assert_eq!(
            text::split_terminated(t, ": "),
            t.split_terminator(": ").collect::<Vec<_>>()
        );
        assert_eq!(text::trim(t), t.trim());
        assert_eq!(text::split_str(t, '/').join("/"), t);
    }
}

#[test]
fn white_space_is_that_of_unicode() {
    for c in '\0'..=char::MAX {
        assert_eq!(text::white(c), c.is_whitespace());
    }
}

#[test]
fn numbers_are_read_as_in_the_standard_library() {
    let largest = usize::MAX.to_string();
    for t in [
        "", "0", "00", "7", "+7", "++7", "-7", "-0", "+", "12a", " 1", "1 ", "\u{663}", &largest,
        "18446744073709551616", "99999999999999999999999999", "184467440737095516150",
    ] {
        assert_eq!(text::parse_usize(t), t.parse::<usize>().ok(), "{t}");
    }
}

#[test]
fn numbers_are_written_and_read_back() {
    for n in [0, 1, 9, 10, 99, 100, 1024, 4221, 1_000_000_007, usize::MAX] {
        assert_eq!(text::write_decimal(n), n.to_string());
        assert_eq!(text::parse_usize(&text::write_decimal(n)), Some(n));
    }
}

#[test]
fn texts_are_sequences_of_characters() {
    assert_eq!(text::chars_of("a\u{e9}\u{1f600}"), vec!['a', '\u{e9}', '\u{1f600}']);
}

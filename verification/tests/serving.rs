use http_server::files;
use http_server::files::{file_path, probed, spelled_path, Context, FileStep, TextKind};
use http_server::request::Request;

fn ask(dir: Option<&str>, target: &str) -> FileStep {
    let context = Context {
        file_dir: dir.map(|d| d.as_bytes().to_vec()),
    };
    let bytes = format!("GET {target} HTTP/1.1\r\n\r\n").into_bytes();
    files::file(&context, &Request::parse(&bytes).unwrap())
}

fn responds(step: FileStep, expected: &[u8]) -> bool {
    matches!(step, FileStep::Respond(bytes) if bytes == expected)
}

const NOT_FOUND: &[u8] = b"HTTP/1.1 404 Not Found\r\n\r\n";

#[test]
fn a_target_asks_for_a_path_under_the_directory() {
    for (target, path) in [
        ("/", "/srv/index.html"),
        ("/a.html", "/srv/a.html"),
        ("/a/b%20c.txt", "/srv/a/b c.txt"),
        ("/a//b", "/srv/a/b"),
        ("/a/", "/srv/a/"),
        ("/%C3%A9", "/srv/\u{e9}"),
        ("/50%", "/srv/50%"),
        ("/%4", "/srv/%4"),
        ("/%zz%4%41", "/srv/%zz%4A"),
        ("/%%41", "/srv/%A"),
        ("/a+b", "/srv/a+b"),
        ("/.", "/srv/./index.html"),
        ("/x/..", "/srv/x/../index.html"),
    ] {
        assert!(
            matches!(ask(Some("/srv"), target), FileStep::Probe(p) if p == path.as_bytes()),
            "{target}"
        );
    }
}

#[test]
fn paths_are_those_of_the_standard_library() {
    for target in [
        "", "/", "/a", "/a/b/c", "/a//b", "/a/", "//", "/./a", "/a/.", "/a/./", "/..", "/a/..",
        "/%2Fetc/x", "/a/%2F", "/a%2Fb", "x/y", "/a%2F/b", "/%2E%2E", "/.hidden", "/%", "/a%00",
    ] {
        let mut expected: std::path::PathBuf = target
            .split('/')
            .skip(1)
            .map(|elem| urlencoding::decode(elem).unwrap().into_owned())
            .collect();
        if expected.file_name().is_none() {
            expected.set_file_name("index.html");
        }
        let path = file_path(target).unwrap();
        assert_eq!(String::from_utf8(path).unwrap(), expected.to_str().unwrap(), "{target}");
    }
}

#[test]
fn a_target_that_cannot_be_decoded_is_an_internal_error() {
    let internal = b"HTTP/1.1 500 Internal Server Error\r\n\r\n";
    assert!(responds(ask(Some("/srv"), "/a/%FF"), internal));
    assert!(responds(ask(None, "/%C3/a"), internal));
    assert_eq!(file_path("/%FF"), None);
    assert_eq!(spelled_path("/%FF"), None);
}

#[test]
fn a_path_without_a_file_name_is_spelled_without_one() {
    assert_eq!(spelled_path("/a%20b/c.html"), Some(b"a b/c.html".to_vec()));
    assert_eq!(spelled_path("/"), Some(b"".to_vec()));
    assert_eq!(file_path("/"), Some(b"index.html".to_vec()));
    assert_eq!(spelled_path("/a/.."), Some(b"a/..".to_vec()));
    assert_eq!(file_path("/a/.."), Some(b"a/../index.html".to_vec()));
}

#[test]
fn nothing_is_found_without_a_directory() {
    assert!(responds(ask(None, "/a.html"), NOT_FOUND));
}

#[test]
fn what_is_not_there_is_not_found() {
    assert!(responds(probed(b"/srv/a.html".to_vec(), Some(false)), NOT_FOUND));
    assert!(responds(probed(b"/srv/a.html".to_vec(), None), NOT_FOUND));
}

#[test]
fn the_extension_decides_how_a_file_is_read() {
    let found = |path: &str| probed(path.as_bytes().to_vec(), Some(true));
    assert!(
        matches!(found("/srv/a.html"), FileStep::ReadText(p, TextKind::Html) if p == b"/srv/a.html")
    );
    assert!(
        matches!(found("/srv/a.b.svg"), FileStep::ReadText(p, TextKind::Svg) if p == b"/srv/a.b.svg")
    );
    assert!(matches!(found("/srv/a.html/"), FileStep::ReadText(_, TextKind::Html)));
    for path in ["/srv/a.txt", "/srv/.html", "/srv/html", "/srv/a.HTML", "/srv/a.html/b", "/srv/a."] {
        assert!(
            matches!(found(path), FileStep::ReadBytes(p) if p == path.as_bytes()),
            "{path}"
        );
    }
}

#[test]
fn the_directory_does_not_change_how_a_file_is_read() {
    for dir in ["", "/", "/srv", "/srv.svg", "a/", ".."] {
        for (target, html) in [("/x.html", true), ("/", true), ("/x", false), ("/x.html/..", true)] {
            match ask(Some(dir), target) {
                FileStep::Probe(path) => {
                    let step = probed(path, Some(true));
                    assert_eq!(
                        matches!(step, FileStep::ReadText(_, TextKind::Html)),
                        html,
                        "{dir} {target}"
                    );
                }
                _ => panic!("no path for {target}"),
            }
        }
    }
}

use http_server::app::{handle_request, App, Fault, Route};
use http_server::files::Context;
use http_server::method::Method;
use http_server::request::{Refusal, Request};
use http_server::response::{Response, StatusCode};

type Handler = Box<dyn Fn(&Context, Request) -> Vec<u8>>;

fn root(_ctx: &Context, _request: Request) -> Vec<u8> {
    Response::new(StatusCode::Success).into_bytes()
}

fn echo(_ctx: &Context, request: Request) -> Vec<u8> {
    let name = request.target().split('/').nth(2).unwrap_or("").to_string();
    Response::new(StatusCode::Success).with_body(name).into_bytes()
}

fn user_agent(_ctx: &Context, request: Request) -> Vec<u8> {
    let agent = request.headers().get("User-Agent").unwrap().to_string();
    Response::new(StatusCode::Success).with_body(agent).into_bytes()
}

fn setup_app() -> App<Handler> {
    let mut app: App<Handler> = App::new();
    app.add_handler(Method::Get, "/", Box::new(root));
    app.add_handler(Method::Get, "/echo/:name", Box::new(echo));
    app.add_handler(Method::Get, "/user-agent", Box::new(user_agent));
    app
}

fn says(text: &'static str) -> Handler {
    Box::new(move |_ctx: &Context, _request: Request| text.as_bytes().to_vec())
}

fn request(line: &str) -> Vec<u8> {
    format!("{line}\r\n\r\n").into_bytes()
}

#[test]
fn it_returns_a_not_found_response() {
    let res = setup_app().respond(b"GET /not_found HTTP/1.1\r\nHost: localhost:4221\r\nUser-Agent: curl/7.64.1\r\nAccept: */*\r\n\r\n".to_vec());
    assert_eq!(res, Ok(b"HTTP/1.1 404 Not Found\r\n\r\n".to_vec()));
}

#[test]
fn it_returns_an_echo_response() {
    let res = setup_app().respond(b"GET /echo/abc HTTP/1.1\r\nHost: localhost:4221\r\nUser-Agent: curl/7.64.1\r\nAccept: */*\r\n\r\n".to_vec());
    assert_eq!(
        res,
        Ok(
            b"HTTP/1.1 200 OK\r\nContent-Type: text/plain\r\nContent-Length: 3\r\n\r\nabc"
                .to_vec()
        )
    );
}

#[test]
fn it_returns_the_user_agent() {
    let res = setup_app().respond(b"GET /user-agent HTTP/1.1\r\nHost: localhost:4221\r\nUser-Agent: foobar/1.2.3\r\nAccept: */*\r\n\r\n".to_vec());
    assert_eq!(
        res,
        Ok(
            b"HTTP/1.1 200 OK\r\nContent-Type: text/plain\r\nContent-Length: 12\r\n\r\nfoobar/1.2.3"
                .to_vec()
        )
    );
}

#[test]
fn a_new_app_has_no_routes() {
    let app: App<Handler> = App::new();
    assert_eq!(app.num_workers(), 4);
    assert_eq!(
        app.respond(request("GET / HTTP/1.1")),
        Ok(b"HTTP/1.1 404 Not Found\r\n\r\n".to_vec())
    );
}

#[test]
fn the_method_decides() {
    let mut app: App<Handler> = App::new();
    app.add_handler(Method::Get, "/a", says("get"));
    app.add_handler(Method::Post, "/a", says("post"));
    assert_eq!(app.respond(request("GET /a X")), Ok(b"get".to_vec()));
    assert_eq!(app.respond(request("post /a X")), Ok(b"post".to_vec()));
}

#[test]
fn the_last_registration_counts() {
    let mut app: App<Handler> = App::new();
    app.add_handler(Method::Get, "/a", says("first"));
    app.add_handler(Method::Get, "/b", says("b"));
    app.add_handler(Method::Get, "/a", says("last"));
    assert_eq!(app.respond(request("GET /a X")), Ok(b"last".to_vec()));
    assert_eq!(app.respond(request("GET /b X")), Ok(b"b".to_vec()));
}

#[test]
fn patterns_and_targets_are_compared_as_far_as_both_go() {
    let mut app: App<Handler> = App::new();
    app.add_handler(Method::Get, "/echo/:name", says("echo"));
    for target in ["/echo/abc", "/echo/abc/def", "/echo", "", "/echo/"] {
        assert_eq!(
            app.respond(request(&format!("GET {target}"))),
            Ok(b"echo".to_vec()),
            "{target}"
        );
    }
    for target in ["/", "/ech", "/echoes/abc", "echo/abc"] {
        assert_eq!(
            app.respond(request(&format!("GET {target}"))),
            Ok(b"HTTP/1.1 404 Not Found\r\n\r\n".to_vec()),
            "{target}"
        );
    }
}

#[test]
fn a_placeholder_takes_any_segment() {
    let mut app: App<Handler> = App::new();
    app.add_handler(Method::Get, "/:file", says("file"));
    for target in ["/", "/a", "/a/b/c", "/:x"] {
        assert_eq!(
            app.respond(request(&format!("GET {target} HTTP/1.1"))),
            Ok(b"file".to_vec()),
            "{target}"
        );
    }
    assert_eq!(
        app.respond(request("GET a/b HTTP/1.1")),
        Ok(b"HTTP/1.1 404 Not Found\r\n\r\n".to_vec())
    );
}

#[test]
fn faults_are_told_apart() {
    let mut app: App<Handler> = App::new();
    app.add_handler(Method::Get, "/a", says("a"));
    assert_eq!(
        app.respond(request("PUT /a HTTP/1.1")),
        Err(Fault::UnsupportedMethod)
    );
    assert_eq!(
        app.respond(request("PUT /b HTTP/1.1")),
        Ok(b"HTTP/1.1 404 Not Found\r\n\r\n".to_vec())
    );
    assert_eq!(
        app.respond(b"GET /a HTTP/1.1\r\nContent-Length: x\r\n\r\n".to_vec()),
        Err(Fault::InvalidLength)
    );
    let long = format!("GET /a HTTP/1.1\r\nContent-Length: {}\r\n\r\n", usize::MAX);
    assert_eq!(app.respond(long.into_bytes()), Err(Fault::ExcessiveLength));
    assert_eq!(
        app.respond(b"GET /a HTTP/1.1\r\n\r\nbody".to_vec()),
        Ok(b"HTTP/1.1 411 Length Required\r\n\r\n".to_vec())
    );
}

#[test]
fn handlers_share_the_context() {
    let mut app: App<Handler> = App::new().with_file_dir(b"/srv".to_vec());
    app.add_handler(
        Method::Get,
        "/dir",
        Box::new(|ctx: &Context, _request: Request| ctx.file_dir.clone().unwrap()),
    );
    assert_eq!(app.respond(request("GET /dir HTTP/1.1")), Ok(b"/srv".to_vec()));
}

#[test]
fn requests_go_to_the_first_route_that_accepts_them() {
    let route = |method: Method, pattern: &[&str], text: &'static str| Route {
        method,
        pattern: pattern.iter().map(|s| s.to_string()).collect(),
        handler: says(text),
    };
    let handlers = vec![
        route(Method::Post, &["", "a"], "post"),
        route(Method::Get, &["", ":any"], "any"),
        route(Method::Get, &["", "a"], "a"),
    ];
    let parsed = Request::parse(&request("GET /a HTTP/1.1")).unwrap();
    assert_eq!(
        handle_request(&Context::default(), &handlers, parsed),
        b"any".to_vec()
    );
}

#[test]
fn workers_are_counted_from_zero() {
    assert_eq!(http_server::pool::worker_ids(4), vec![0, 1, 2, 3]);
    assert_eq!(http_server::pool::worker_ids(0), Vec::<usize>::new());
}

#[test]
fn other_paths_are_other_routes() {
    let mut app: App<Handler> = App::new();
    app.add_handler(Method::Get, "//a", says("first"));
    app.add_handler(Method::Get, "/a", says("plain"));
    app.add_handler(Method::Get, "//a", says("slashes"));
    assert_eq!(app.respond(request("GET /a X")), Ok(b"plain".to_vec()));
    assert_eq!(app.respond(request("GET //a X")), Ok(b"slashes".to_vec()));
}

#[test]
fn what_was_read_is_answered() {
    let app = setup_app();
    let read = Request::parse(&request("GET /echo/abc HTTP/1.1"));
    assert_eq!(
        app.answer(read),
        Ok(
            b"HTTP/1.1 200 OK\r\nContent-Type: text/plain\r\nContent-Length: 3\r\n\r\nabc"
                .to_vec()
        )
    );
    for refusal in [
        Refusal::UnreadableLine,
        Refusal::CrowdedLine,
        Refusal::UnreadableHeader,
        Refusal::ShortBody,
    ] {
        assert_eq!(
            app.answer(Err(refusal)),
            Ok(b"HTTP/1.1 400 Bad Request\r\n\r\n".to_vec())
        );
    }
    assert_eq!(
        app.answer(Err(Refusal::InvalidLength)),
        Err(Fault::InvalidLength)
    );
}

//! What holds of routes: which requests they are for, and how registering changes them.
use crate::app;
use crate::app::{App, Fault, Route, RouteView};
use crate::files::Context;
use crate::method;
use crate::method::Method;
use crate::request::{Refusal, Request, RequestView};
use crate::text;
use crate::text_laws;
use vstd::prelude::*;
use vstd::utf8;

verus! {

/// A name of a method has exactly its letters, each in either case, and nothing else names one.
pub proof fn law_method_names(name: Seq<char>)
    ensures
        method::named(name) == Some(Method::Get) <==> {
            &&& name.len() == 3
            &&& (name[0] == 'g' || name[0] == 'G')
            &&& (name[1] == 'e' || name[1] == 'E')
            &&& (name[2] == 't' || name[2] == 'T')
        },
        method::named(name) == Some(Method::Post) <==> {
            &&& name.len() == 4
            &&& (name[0] == 'p' || name[0] == 'P')
            &&& (name[1] == 'o' || name[1] == 'O')
            &&& (name[2] == 's' || name[2] == 'S')
            &&& (name[3] == 't' || name[3] == 'T')
        },
{
    reveal_strlit("get");
    reveal_strlit("post");
    let low = method::lowercased(name);
    if name.len() == 3 {
        assert(low == seq![method::lower(name[0]), method::lower(name[1]), method::lower(name[2])]);
        assert("get"@ == seq!['g', 'e', 't']);
        if low == "get"@ {
            assert(low[0] == 'g' && low[1] == 'e' && low[2] == 't');
        }
        assert("post"@.len() != low.len());
    } else if name.len() == 4 {
        assert(low == seq![
            method::lower(name[0]),
            method::lower(name[1]),
            method::lower(name[2]),
            method::lower(name[3]),
        ]);
        assert("post"@ == seq!['p', 'o', 's', 't']);
        if low == "post"@ {
            assert(low[0] == 'p' && low[1] == 'o' && low[2] == 's' && low[3] == 't');
        }
        assert("get"@.len() != low.len());
    } else {
        assert(low.len() == name.len());
    }
}

/// A placeholder is a segment that starts with a colon.
pub proof fn law_placeholders_start_with_a_colon(segment: Seq<char>)
    ensures
        app::is_placeholder(segment) <==> segment.len() > 0 && segment.first() == ':',
{
}

/// One segment that differs is enough for a pattern not to fit, whatever stands before it and
/// after it, unless the pattern has a placeholder at that very place.
pub proof fn law_one_mismatch_is_enough(
    pattern: Seq<Seq<char>>,
    target: Seq<Seq<char>>,
    i: int,
)
    requires
        0 <= i < pattern.len(),
        i < target.len(),
        pattern[i] != target[i],
        pattern[i].len() == 0 || pattern[i][0] != ':',
    ensures
        !app::fits(pattern, target),
{
    assert(!app::is_placeholder(pattern[i]));
}

/// A pattern fits where each segment that both have is the same, or a placeholder of the pattern.
pub proof fn law_matching_segments_fit(pattern: Seq<Seq<char>>, target: Seq<Seq<char>>)
    requires
        forall|i: int|
            0 <= i < pattern.len() && i < target.len() ==> (#[trigger] pattern[i]) == target[i] || (
            pattern[i].len() > 0 && pattern[i][0] == ':'),
    ensures
        app::fits(pattern, target),
{
}

/// Whether segment `i` of a pattern allows a segment of a target.
pub open spec fn allows(wanted: Seq<char>, given: Seq<char>) -> bool {
    wanted == given || (wanted.len() > 0 && wanted[0] == ':')
}

/// A route that was registered for the path `/p1/p2/...` accepts a request for `/t1/t2/...` just
/// where the method is named and each segment that both have is allowed.
pub proof fn law_route_accepts_by_segments<H>(
    route: RouteView<H>,
    request: RequestView,
    wanted: Seq<Seq<char>>,
    given: Seq<Seq<char>>,
)
    requires
        forall|i: int| 0 <= i < wanted.len() ==> !(#[trigger] wanted[i]).contains('/'),
        forall|i: int| 0 <= i < given.len() ==> !(#[trigger] given[i]).contains('/'),
        route.pattern == text::split_on(text_laws::strung(Seq::empty(), wanted, '/'), '/'),
        request.target == text_laws::strung(Seq::empty(), given, '/'),
    ensures
        route.accepts(request) <==> {
            &&& method::named(request.method) == Some(route.method)
            &&& forall|i: int|
                0 <= i < wanted.len() && i < given.len() ==> allows(#[trigger] wanted[i], given[i])
        },
{
    let none = Seq::<char>::empty();
    text_laws::law_split_undoes_stringing(none, wanted, '/');
    text_laws::law_split_undoes_stringing(none, given, '/');
    let pattern = seq![none] + wanted;
    let target = seq![none] + given;
    assert(route.pattern == pattern);
    assert(text::split_on(request.target, '/') == target);
    if app::fits(pattern, target) {
        assert forall|i: int| 0 <= i < wanted.len() && i < given.len() implies allows(
            #[trigger] wanted[i],
            given[i],
        ) by {
            assert(pattern[i + 1] == wanted[i]);
            assert(target[i + 1] == given[i]);
            assert(app::is_placeholder(pattern[i + 1]) || pattern[i + 1] == target[i + 1]);
        }
    }
    if forall|i: int|
        0 <= i < wanted.len() && i < given.len() ==> allows(#[trigger] wanted[i], given[i]) {
        assert forall|i: int| 0 <= i < pattern.len() && i < target.len() implies (
        #[trigger] pattern[i]) == target[i] || (pattern[i].len() > 0 && pattern[i][0] == ':') by {
            if i > 0 {
                assert(pattern[i] == wanted[i - 1]);
                assert(target[i] == given[i - 1]);
                assert(allows(wanted[i - 1], given[i - 1]));
            }
        }
        law_matching_segments_fit(pattern, target);
    }
}

/// Whatever pattern a route has and whatever the target is, the route accepts a request just where
/// the method is named and each segment that both have is allowed.
pub proof fn law_route_accepts<H>(route: RouteView<H>, request: RequestView)
    ensures
        route.accepts(request) <==> {
            let given = text::split_on(request.target, '/');
            &&& method::named(request.method) == Some(route.method)
            &&& forall|i: int|
                0 <= i < route.pattern.len() && i < given.len() ==> allows(
                    #[trigger] route.pattern[i],
                    given[i],
                )
        },
{
    let wanted = route.pattern;
    let given = text::split_on(request.target, '/');
    if app::fits(wanted, given) {
        assert forall|i: int| 0 <= i < wanted.len() && i < given.len() implies allows(
            #[trigger] wanted[i],
            given[i],
        ) by {
            assert(app::is_placeholder(wanted[i]) || wanted[i] == given[i]);
        }
    } else {
        let i = choose|i: int|
            0 <= i < wanted.len() && i < given.len() && !(app::is_placeholder(#[trigger] wanted[i])
                || wanted[i] == given[i]);
        assert(!allows(wanted[i], given[i]));
    }
}

/// A route that takes a request accepts it, and no other route takes it.
pub proof fn law_one_accepting_route_takes<H>(
    routes: Seq<RouteView<H>>,
    request: RequestView,
    i: int,
)
    requires
        app::takes(routes, request, i),
    ensures
        0 <= i < routes.len(),
        routes[i].accepts(request),
        forall|j: int| #[trigger] app::takes(routes, request, j) ==> j == i,
        !app::untaken(routes, request),
{
}

/// A request that some route accepts is taken, and is not passed on to a later route.
pub proof fn law_accepted_request_is_taken<H>(
    routes: Seq<RouteView<H>>,
    request: RequestView,
    j: int,
)
    requires
        0 <= j < routes.len(),
        routes[j].accepts(request),
    ensures
        exists|i: int| i <= j && #[trigger] app::takes(routes, request, i),
        !app::untaken(routes, request),
    decreases j,
{
    if forall|k: int| 0 <= k < j ==> !(#[trigger] routes[k]).accepts(request) {
        assert(app::takes(routes, request, j));
    } else {
        let k = choose|k: int| 0 <= k < j && (#[trigger] routes[k]).accepts(request);
        law_accepted_request_is_taken(routes, request, k);
        let i = choose|i: int| i <= k && #[trigger] app::takes(routes, request, i);
        assert(i <= j && app::takes(routes, request, i));
    }
}

/// A request that no route accepts is left untaken.
pub proof fn law_unaccepted_request_is_untaken<H>(routes: Seq<RouteView<H>>, request: RequestView)
    requires
        forall|i: int| 0 <= i < routes.len() ==> !(#[trigger] routes[i]).accepts(request),
    ensures
        app::untaken(routes, request),
        forall|i: int| !#[trigger] app::takes(routes, request, i),
{
}

/// A request can be decided on where its method is GET or POST, and also where no pattern fits its
/// target; only a request with another method for a target that a pattern fits cannot.
pub proof fn law_supported_methods_are_decided<H>(routes: Seq<RouteView<H>>, request: RequestView)
    ensures
        method::named(request.method) is Some ==> app::decidable(routes, request),
        routes.len() == 0 ==> app::decidable(routes, request),
        (method::named(request.method) is None && exists|i: int|
            0 <= i < routes.len() && app::fits(
                (#[trigger] routes[i]).pattern,
                text::split_on(request.target, '/'),
            )) ==> !app::decidable(routes, request),
        (forall|i: int|
            0 <= i < routes.len() ==> !app::fits(
                (#[trigger] routes[i]).pattern,
                text::split_on(request.target, '/'),
            )) ==> app::decidable(routes, request),
{
    if method::named(request.method) is None && exists|i: int|
        0 <= i < routes.len() && app::fits(
            (#[trigger] routes[i]).pattern,
            text::split_on(request.target, '/'),
        ) {
        let i = choose|i: int|
            0 <= i < routes.len() && app::fits(
                (#[trigger] routes[i]).pattern,
                text::split_on(request.target, '/'),
            );
        assert(routes[i].fits_target(request));
    }
}

/// Two routes have the same key just where method and pattern are the same.
pub proof fn law_key_is_method_and_pattern<H>(a: RouteView<H>, b: RouteView<H>)
    ensures
        a.same_key(b) <==> a.method == b.method && a.pattern == b.pattern,
{
}

/// After registering, the new route is there, at the place of the route that it replaces or else
/// after all others.
pub proof fn law_registered_route_is_there<H>(routes: Seq<RouteView<H>>, new: RouteView<H>)
    ensures
        app::with_route(routes, new).contains(new),
        (forall|i: int|
            0 <= i < routes.len() ==> (#[trigger] routes[i]).method != new.method
                || routes[i].pattern != new.pattern) ==> app::with_route(routes, new)
            == routes.push(new),
        app::with_route(routes, new).len() >= routes.len(),
    decreases routes.len(),
{
    let all = app::with_route(routes, new);
    if routes.len() == 0 {
        assert(all[0] == new);
        assert(routes.push(new) == seq![new]);
    } else if routes[0].same_key(new) {
        assert(all[0] == new);
    } else {
        let rest = routes.skip(1);
        law_registered_route_is_there(rest, new);
        let more = app::with_route(rest, new);
        let k = choose|k: int| 0 <= k < more.len() && more[k] == new;
        assert(all[k + 1] == new);
        if forall|i: int|
            0 <= i < routes.len() ==> (#[trigger] routes[i]).method != new.method
                || routes[i].pattern != new.pattern {
            assert forall|i: int| 0 <= i < rest.len() implies (#[trigger] rest[i]).method
                != new.method || rest[i].pattern != new.pattern by {
                assert(rest[i] == routes[i + 1]);
            }
            assert(seq![routes[0]] + rest.push(new) == routes.push(new));
        }
    }
}

/// Registering adds no route but the new one: every other route was there before, at its place.
pub proof fn law_registering_adds_one_route<H>(
    routes: Seq<RouteView<H>>,
    new: RouteView<H>,
    i: int,
)
    requires
        0 <= i < app::with_route(routes, new).len(),
    ensures
        app::with_route(routes, new)[i] == new || (i < routes.len() && app::with_route(routes, new)[i]
            == routes[i]),
    decreases routes.len(),
{
    if routes.len() > 0 && i > 0 && !routes[0].same_key(new) {
        law_registering_adds_one_route(routes.skip(1), new, i - 1);
    }
}

/// Among the routes of an application, no other route than the new one has its method and pattern
/// after it was registered.
pub proof fn law_registered_route_is_alone<H>(
    routes: Seq<RouteView<H>>,
    new: RouteView<H>,
    i: int,
)
    requires
        forall|j: int, k: int|
            0 <= j < k < routes.len() ==> !((#[trigger] routes[j]).method
                == (#[trigger] routes[k]).method && routes[j].pattern == routes[k].pattern),
        0 <= i < app::with_route(routes, new).len(),
        app::with_route(routes, new)[i].method == new.method,
        app::with_route(routes, new)[i].pattern == new.pattern,
    ensures
        app::with_route(routes, new)[i] == new,
    decreases routes.len(),
{
    if routes.len() > 0 && i > 0 {
        let rest = routes.skip(1);
        if routes[0].same_key(new) {
            assert(app::with_route(routes, new)[i] == routes[i]);
            assert(routes[0].method == routes[i].method);
        } else {
            assert forall|j: int, k: int| 0 <= j < k < rest.len() implies !((
            #[trigger] rest[j]).method == (#[trigger] rest[k]).method && rest[j].pattern
                == rest[k].pattern) by {
                assert(rest[j] == routes[j + 1]);
                assert(rest[k] == routes[k + 1]);
            }
            law_registered_route_is_alone(rest, new, i - 1);
        }
    }
}

/// Whether a pattern has the segments of some path.
pub open spec fn comes_from_a_path(pattern: Seq<Seq<char>>) -> bool {
    exists|path: Seq<char>| #[trigger] text::split_on(path, '/') == pattern
}

/// Routes are registered where no two have the same method and pattern, and each pattern has the
/// segments of some path.
pub proof fn law_registered_routes<H>(routes: Seq<RouteView<H>>)
    requires
        app::registered(routes),
    ensures
        forall|j: int, k: int|
            0 <= j < k < routes.len() ==> !((#[trigger] routes[j]).method
                == (#[trigger] routes[k]).method && routes[j].pattern == routes[k].pattern),
        forall|j: int|
            0 <= j < routes.len() ==> comes_from_a_path((#[trigger] routes[j]).pattern),
{
    assert forall|j: int, k: int| 0 <= j < k < routes.len() implies !((#[trigger] routes[j]).method
        == (#[trigger] routes[k]).method && routes[j].pattern == routes[k].pattern) by {
        assert(!routes[j].same_key(routes[k]));
    }
    assert forall|j: int| 0 <= j < routes.len() implies comes_from_a_path(
        (#[trigger] routes[j]).pattern,
    ) by {
        let path = text::join_with(routes[j].pattern, '/');
        assert(app::is_pattern(routes[j].pattern));
        assert(text::split_on(path, '/') == routes[j].pattern);
    }
}

/// Routes by what they say: as many, in the same order, each with its method, the texts of its
/// segments and its handler.
pub proof fn law_route_views<H>(routes: Seq<Route<H>>)
    ensures
        app::route_views(routes).len() == routes.len(),
        forall|i: int|
            #![trigger app::route_views(routes)[i]]
            0 <= i < routes.len() ==> {
                let view = app::route_views(routes)[i];
                &&& view.method == routes[i].method
                &&& view.handler == routes[i].handler
                &&& view.pattern.len() == routes[i].pattern@.len()
                &&& forall|j: int|
                    0 <= j < view.pattern.len() ==> #[trigger] view.pattern[j]
                        == routes[i].pattern@[j]@
            },
{
}

/// A request that no route accepts is answered with 404.
pub proof fn law_untaken_request_is_not_found<H: Fn(&Context, Request) -> Vec<u8>>(
    app: App<H>,
    view: RequestView,
    response: Vec<u8>,
)
    requires
        app.answers(view, response),
        forall|i: int| 0 <= i < app.routes().len() ==> !(#[trigger] app.routes()[i]).accepts(view),
    ensures
        response@ == utf8::encode_utf8("HTTP/1.1 404 Not Found\r\n\r\n"@),
{
    law_unaccepted_request_is_untaken(app.routes(), view);
    crate::response_laws::law_bare_response(crate::response::StatusCode::NotFound);
}

/// A request is answered by the handler of the route that takes it.
pub proof fn law_taken_request_is_handled<H: Fn(&Context, Request) -> Vec<u8>>(
    app: App<H>,
    view: RequestView,
    response: Vec<u8>,
    i: int,
)
    requires
        app.answers(view, response),
        app::takes(app.routes(), view, i),
    ensures
        exists|request: Request| #[trigger]
            request@ == view && call_ensures(
                app.routes()[i].handler,
                (&app.shared(), request),
                response,
            ),
{
}

/// Refusals are answered with 400 or 411; a length that cannot be read or provided for is a fault.
pub proof fn law_refusals_are_answered(refusal: Refusal, result: Result<Vec<u8>, Fault>)
    requires
        app::answers_refusal(refusal, result),
    ensures
        match refusal {
            Refusal::InvalidLength => result == Err::<Vec<u8>, Fault>(Fault::InvalidLength),
            Refusal::ExcessiveLength => result == Err::<Vec<u8>, Fault>(Fault::ExcessiveLength),
            Refusal::LengthRequired => result matches Ok(bytes) && bytes@ == utf8::encode_utf8(
                "HTTP/1.1 411 Length Required\r\n\r\n"@,
            ),
            _ => result matches Ok(bytes) && bytes@ == utf8::encode_utf8(
                "HTTP/1.1 400 Bad Request\r\n\r\n"@,
            ),
        },
{
    crate::response_laws::law_bare_response(crate::response::StatusCode::LengthRequired);
    crate::response_laws::law_bare_response(crate::response::StatusCode::BadRequest);
}

}

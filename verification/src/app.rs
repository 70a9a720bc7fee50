//! The application: routes, and how a request finds its handler.
use crate::files::Context;
use crate::method;
use crate::method::Method;
use crate::request;
use crate::request::{Refusal, Request, RequestView};
use crate::response;
use crate::response::{Response, StatusCode};
use crate::text;
use vstd::prelude::*;

verus! {

broadcast use vstd::string::group_string_axioms;

/// The number of workers that serve connections.
pub const WORKERS: usize = 4;

/// A handler, with the method and the target pattern that it is registered for. The pattern is
/// kept as the segments between its slashes.
pub struct Route<H> {
    pub method: Method,
    pub pattern: Vec<String>,
    pub handler: H,
}

/// What a route says.
pub struct RouteView<H> {
    pub method: Method,
    pub pattern: Seq<Seq<char>>,
    pub handler: H,
}

impl<H> View for Route<H> {
    type V = RouteView<H>;

    open spec fn view(&self) -> RouteView<H> {
        RouteView {
            method: self.method,
            pattern: self.pattern.deep_view(),
            handler: self.handler,
        }
    }
}

/// Routes by what they say.
pub open spec fn route_views<H>(routes: Seq<Route<H>>) -> Seq<RouteView<H>> {
    routes.map_values(|route: Route<H>| route@)
}

/// A segment that stands for any segment: one that starts with a colon.
pub open spec fn is_placeholder(segment: Seq<char>) -> bool {
    segment.len() > 0 && segment[0] == ':'
}

/// Whether a pattern fits a target: segment by segment, as far as both go, the two are the same
/// or the pattern has a placeholder.
pub open spec fn fits(pattern: Seq<Seq<char>>, target: Seq<Seq<char>>) -> bool {
    forall|i: int|
        0 <= i < pattern.len() && i < target.len() ==> is_placeholder(#[trigger] pattern[i])
            || pattern[i] == target[i]
}

impl<H> RouteView<H> {
    /// Whether two routes are registered for the same method and pattern.
    pub open spec fn same_key(self, other: RouteView<H>) -> bool {
        self.method == other.method && self.pattern == other.pattern
    }

    /// Whether the pattern fits the target of a request.
    pub open spec fn fits_target(self, request: RequestView) -> bool {
        fits(self.pattern, text::split_on(request.target, '/'))
    }

    /// Whether the route is for a request: its pattern fits and its method is the same.
    pub open spec fn accepts(self, request: RequestView) -> bool {
        self.fits_target(request) && Some(self.method) == method::named(request.method)
    }
}

/// `routes` with `new`: in the place of the route for the same method and pattern, or else at the
/// end.
pub open spec fn with_route<H>(routes: Seq<RouteView<H>>, new: RouteView<H>) -> Seq<RouteView<H>>
    decreases routes.len(),
{
    if routes.len() == 0 {
        seq![new]
    } else if routes[0].same_key(new) {
        seq![new] + routes.skip(1)
    } else {
        seq![routes[0]] + with_route(routes.skip(1), new)
    }
}

/// Whether no two routes are for the same method and pattern.
pub open spec fn distinct<H>(routes: Seq<RouteView<H>>) -> bool {
    forall|i: int, j: int|
        0 <= i < j < routes.len() ==> !(#[trigger] routes[i]).same_key(#[trigger] routes[j])
}

/// Whether a pattern is made of the segments of a path.
pub open spec fn is_pattern(pattern: Seq<Seq<char>>) -> bool {
    text::split_on(text::join_with(pattern, '/'), '/') == pattern
}

/// What holds of the routes of an application: no two are for the same method and pattern, and
/// every pattern is made of the segments of a path.
pub open spec fn registered<H>(routes: Seq<RouteView<H>>) -> bool {
    &&& distinct(routes)
    &&& forall|i: int| 0 <= i < routes.len() ==> is_pattern((#[trigger] routes[i]).pattern)
}

/// Whether the route at `i` takes a request: it accepts it, and no route before it does.
pub open spec fn takes<H>(routes: Seq<RouteView<H>>, request: RequestView, i: int) -> bool {
    &&& 0 <= i < routes.len()
    &&& routes[i].accepts(request)
    &&& forall|j: int| 0 <= j < i ==> !(#[trigger] routes[j]).accepts(request)
}

/// Whether no route takes a request.
pub open spec fn untaken<H>(routes: Seq<RouteView<H>>, request: RequestView) -> bool {
    forall|i: int| 0 <= i < routes.len() ==> !(#[trigger] routes[i]).accepts(request)
}

/// Whether the method of a request can be told apart wherever that matters: it is a supported one,
/// or no pattern fits the target.
pub open spec fn decidable<H>(routes: Seq<RouteView<H>>, request: RequestView) -> bool {
    ||| method::named(request.method) is Some
    ||| forall|i: int| 0 <= i < routes.len() ==> !(#[trigger] routes[i]).fits_target(request)
}

/// Whether two texts are the same.
fn same_text(a: &String, b: &String) -> (same: bool)
    ensures
        same == (a@ == b@),
{
    *a == *b
}

/// Whether a pattern fits a target.
fn pattern_fits(pattern: &Vec<String>, target: &Vec<String>) -> (b: bool)
    ensures
        b == fits(pattern.deep_view(), target.deep_view()),
{
    let ghost p = pattern.deep_view();
    let ghost t = target.deep_view();
    let mut i: usize = 0;
    while i < pattern.len() && i < target.len()
        invariant
            p == pattern.deep_view(),
            t == target.deep_view(),
            i <= pattern@.len(),
            i <= target@.len(),
            forall|j: int| 0 <= j < i ==> is_placeholder(#[trigger] p[j]) || p[j] == t[j],
        decreases pattern.len() - i,
    {
        let segment = pattern[i].as_str();
        assert(p[i as int] == segment@);
        assert(t[i as int] == target@[i as int]@);
        let placeholder: bool = !segment.is_empty() && segment.get_char(0) == ':';
        if !placeholder && !same_text(&pattern[i], &target[i]) {
            return false;
        }
        i = i + 1;
    }
    true
}

/// Hands a request to the handler of the route that takes it; nothing is found where no route
/// does. Where a pattern fits the target, the method has to be a supported one.
pub fn handle_request<H: Fn(&Context, Request) -> Vec<u8>>(
    ctx: &Context,
    handlers: &Vec<Route<H>>,
    request: Request,
) -> (response: Vec<u8>)
    requires
        decidable(route_views(handlers@), request@),
        forall|i: int|
            takes(route_views(handlers@), request@, i) ==> call_requires(
                #[trigger] handlers@[i].handler,
                (ctx, request),
            ),
    ensures
        forall|i: int|
            takes(route_views(handlers@), request@, i) ==> call_ensures(
                #[trigger] handlers@[i].handler,
                (ctx, request),
                response,
            ),
        untaken(route_views(handlers@), request@) ==> response@ == response::bare(
            StatusCode::NotFound,
        ),
{
    let target = text::split_str(request.target(), '/');
    let ghost routes = route_views(handlers@);
    let mut i: usize = 0;
    while i < handlers.len()
        invariant
            routes == route_views(handlers@),
            target.deep_view() == text::split_on(request@.target, '/'),
            decidable(routes, request@),
            forall|i: int|
                takes(routes, request@, i) ==> call_requires(
                    #[trigger] handlers@[i].handler,
                    (ctx, request),
                ),
            i <= handlers@.len(),
            forall|j: int| 0 <= j < i ==> !(#[trigger] routes[j]).accepts(request@),
        decreases handlers.len() - i,
    {
        let route = &handlers[i];
        assert(routes[i as int] == route@);
        if pattern_fits(&route.pattern, &target) && route.method == request.method() {
            assert(takes(routes, request@, i as int));
            return (route.handler)(ctx, request);
        }
        i = i + 1;
    }
    Response::new(StatusCode::NotFound).into_bytes()
}

/// Why a request cannot be answered at all.
#[derive(Debug, Clone, Copy, PartialEq, Eq, Structural)]
pub enum Fault {
    /// The length that the headers give for the body cannot be read.
    InvalidLength,
    /// The length that the headers give for the body is more than any buffer can hold.
    ExcessiveLength,
    /// A pattern fits the target, and the method is not a supported one.
    UnsupportedMethod,
}

/// Whether `result` answers a refusal: with the response that has its status, or with the fault
/// that stands for it where it has none.
pub open spec fn answers_refusal(refusal: Refusal, result: Result<Vec<u8>, Fault>) -> bool {
    match refusal {
        Refusal::InvalidLength => result == Err::<Vec<u8>, Fault>(Fault::InvalidLength),
        Refusal::ExcessiveLength => result == Err::<Vec<u8>, Fault>(Fault::ExcessiveLength),
        _ => result matches Ok(response) && response@ == response::bare(
            request::refusal_status(refusal)->0,
        ),
    }
}

/// An application: its routes, what their handlers share, and how many workers serve it.
pub struct App<H> {
    workers: usize,
    handlers: Vec<Route<H>>,
    context: Context,
}

impl<H> App<H> {
    /// The routes, in the order in which they were first registered.
    pub closed spec fn routes(self) -> Seq<RouteView<H>> {
        route_views(self.handlers@)
    }

    /// What the handlers share.
    pub closed spec fn shared(self) -> Context {
        self.context
    }

    /// The number of workers.
    pub closed spec fn worker_count(self) -> usize {
        self.workers
    }

    /// No two routes are for the same method and pattern, and the patterns come from paths.
    #[verifier::type_invariant]
    spec fn keyed(self) -> bool {
        registered(self.routes())
    }

    /// An application without routes, which serves no files.
    pub fn new() -> (app: Self)
        ensures
            app.routes() == Seq::<RouteView<H>>::empty(),
            app.shared().file_dir is None,
            app.worker_count() == WORKERS,
    {
        let handlers: Vec<Route<H>> = Vec::new();
        assert(route_views(handlers@) == Seq::<RouteView<H>>::empty());
        App { workers: WORKERS, handlers, context: Context::default() }
    }

    /// The application with a directory that files are served from.
    pub fn with_file_dir(self, file_dir: Vec<u8>) -> (app: Self)
        ensures
            app.routes() == self.routes(),
            registered(app.routes()),
            app.shared().file_dir == Some(file_dir),
            app.worker_count() == self.worker_count(),
    {
        proof {
            use_type_invariant(&self);
        }
        App {
            workers: self.workers,
            handlers: self.handlers,
            context: Context { file_dir: Some(file_dir) },
        }
    }

    /// Registers a handler for a method and a target pattern, in place of the one that may have
    /// been registered for them.
    pub fn add_handler(&mut self, method: Method, path: &str, handler: H)
        ensures
            final(self).routes() == with_route(
                old(self).routes(),
                (RouteView { method, pattern: text::split_on(path@, '/'), handler }),
            ),
            registered(old(self).routes()),
            registered(final(self).routes()),
            final(self).shared() == old(self).shared(),
            final(self).worker_count() == old(self).worker_count(),
    {
        proof {
            use_type_invariant(&*self);
        }
        let pattern = text::split_str(path, '/');
        let mut handlers: Vec<Route<H>> = Vec::new();
        std::mem::swap(&mut handlers, &mut self.handlers);
        let ghost routes = route_views(handlers@);
        let ghost new = RouteView { method, pattern: pattern.deep_view(), handler };
        let mut i: usize = 0;
        while i < handlers.len() && !(handlers[i].method == method && same_pattern(
            &handlers[i].pattern,
            &pattern,
        ))
            invariant
                routes == route_views(handlers@),
                new.method == method,
                new.pattern == pattern.deep_view(),
                i <= handlers@.len(),
                forall|j: int| 0 <= j < i ==> !(#[trigger] routes[j]).same_key(new),
            decreases handlers.len() - i,
        {
            assert(routes[i as int] == handlers@[i as int]@);
            i = i + 1;
        }
        proof {
            if i < handlers@.len() {
                assert(routes[i as int] == handlers@[i as int]@);
            }
            lemma_with_route(routes, new, i as int);
            law_path_makes_pattern(path@);
            law_routes_stay_registered(routes, new);
        }
        let route = Route { method, pattern, handler };
        if i < handlers.len() {
            handlers.set(i, route);
            assert(route_views(handlers@) == routes.update(i as int, new));
        } else {
            handlers.push(route);
            assert(route_views(handlers@) == routes.push(new));
        }
        self.handlers = handlers;
    }

    /// The number of workers.
    pub fn num_workers(&self) -> (n: usize)
        ensures
            n == self.worker_count(),
            registered(self.routes()),
    {
        proof {
            use_type_invariant(self);
        }
        self.workers
    }
}

impl<H: Fn(&Context, Request) -> Vec<u8>> App<H> {
    /// Whether `response` answers a request that says `view`: it comes from the handler of the
    /// route that takes the request, or says that nothing was found where no route does.
    pub open spec fn answers(self, view: RequestView, response: Vec<u8>) -> bool {
        &&& forall|i: int| #[trigger]
            takes(self.routes(), view, i) ==> exists|request: Request| #[trigger]
                request@ == view && call_ensures(
                    self.routes()[i].handler,
                    (&self.shared(), request),
                    response,
                )
        &&& untaken(self.routes(), view) ==> response@ == response::bare(StatusCode::NotFound)
    }

    /// Answers the bytes of a request with the bytes of a response. Bytes that are refused are
    /// answered with the status of the refusal; anything else goes by its route.
    pub fn respond(&self, req_bytes: Vec<u8>) -> (result: Result<Vec<u8>, Fault>)
        requires
            forall|i: int, request: Request|
                request::parsed(req_bytes@) == Ok::<RequestView, Refusal>(request@) && takes(
                    self.routes(),
                    request@,
                    i,
                ) ==> #[trigger] call_requires(
                    self.routes()[i].handler,
                    (&self.shared(), request),
                ),
        ensures
            registered(self.routes()),
            match request::parsed(req_bytes@) {
                Ok(view) => if decidable(self.routes(), view) {
                    result matches Ok(response) && self.answers(view, response)
                } else {
                    result == Err::<Vec<u8>, Fault>(Fault::UnsupportedMethod)
                },
                Err(refusal) => answers_refusal(refusal, result),
            },
    {
        self.answer(Request::parse(&req_bytes))
    }

    /// Answers what was read for a request: a refusal with its status, a request by its route.
    pub fn answer(&self, read: Result<Request, Refusal>) -> (result: Result<Vec<u8>, Fault>)
        requires
            read matches Ok(request) ==> forall|i: int|
                takes(self.routes(), request@, i) ==> #[trigger] call_requires(
                    self.routes()[i].handler,
                    (&self.shared(), request),
                ),
        ensures
            registered(self.routes()),
            match read {
                Ok(request) => if decidable(self.routes(), request@) {
                    &&& result matches Ok(response)
                    &&& self.answers(request@, response)
                    &&& forall|i: int| #[trigger]
                        takes(self.routes(), request@, i) ==> call_ensures(
                            self.routes()[i].handler,
                            (&self.shared(), request),
                            response,
                        )
                } else {
                    result == Err::<Vec<u8>, Fault>(Fault::UnsupportedMethod)
                },
                Err(refusal) => answers_refusal(refusal, result),
            },
    {
        proof {
            use_type_invariant(self);
        }
        let request = match read {
            Ok(request) => request,
            Err(Refusal::InvalidLength) => {
                return Err(Fault::InvalidLength);
            },
            Err(Refusal::ExcessiveLength) => {
                return Err(Fault::ExcessiveLength);
            },
            Err(refusal) => {
                return Ok(request::refused(refusal).unwrap());
            },
        };
        if request.supported_method().is_none() && fits_any(&self.handlers, &request) {
            return Err(Fault::UnsupportedMethod);
        }
        assert forall|i: int| takes(route_views(self.handlers@), request@, i) implies call_requires(
            #[trigger] self.handlers@[i].handler,
            (&self.context, request),
        ) by {
            assert(self.routes()[i].handler == self.handlers@[i].handler);
            assert(call_requires(self.routes()[i].handler, (&self.shared(), request)));
        }
        let response = handle_request(&self.context, &self.handlers, request);
        assert forall|i: int| #[trigger] takes(self.routes(), request@, i) implies call_ensures(
            self.routes()[i].handler,
            (&self.shared(), request),
            response,
        ) by {
            assert(self.routes()[i].handler == self.handlers@[i].handler);
        }
        Ok(response)
    }
}

/// Whether the pattern of any route fits the target of a request.
fn fits_any<H>(handlers: &Vec<Route<H>>, request: &Request) -> (b: bool)
    ensures
        b == exists|i: int|
            0 <= i < handlers@.len() && (#[trigger] route_views(handlers@)[i]).fits_target(
                request@,
            ),
{
    let target = text::split_str(request.target(), '/');
    let ghost routes = route_views(handlers@);
    let mut i: usize = 0;
    while i < handlers.len()
        invariant
            routes == route_views(handlers@),
            target.deep_view() == text::split_on(request@.target, '/'),
            i <= handlers@.len(),
            forall|j: int| 0 <= j < i ==> !(#[trigger] routes[j]).fits_target(request@),
        decreases handlers.len() - i,
    {
        assert(routes[i as int] == handlers@[i as int]@);
        if pattern_fits(&handlers[i].pattern, &target) {
            assert(routes[i as int].fits_target(request@));
            return true;
        }
        i = i + 1;
    }
    false
}

/// Whether two patterns are the same, segment by segment.
fn same_pattern(a: &Vec<String>, b: &Vec<String>) -> (same: bool)
    ensures
        same == (a.deep_view() == b.deep_view()),
{
    if a.len() != b.len() {
        assert(a.deep_view().len() != b.deep_view().len());
        return false;
    }
    let ghost s = a.deep_view();
    let ghost t = b.deep_view();
    let mut i: usize = 0;
    while i < a.len()
        invariant
            s == a.deep_view(),
            t == b.deep_view(),
            a@.len() == b@.len(),
            i <= a@.len(),
            forall|j: int| 0 <= j < i ==> s[j] == #[trigger] t[j],
        decreases a.len() - i,
    {
        assert(s[i as int] == a@[i as int]@);
        assert(t[i as int] == b@[i as int]@);
        if !same_text(&a[i], &b[i]) {
            return false;
        }
        i = i + 1;
    }
    assert(s == t);
    true
}

/// Where a new route goes: to the first place `i` with a route for the same method and pattern, or
/// to the end.
proof fn lemma_with_route<H>(routes: Seq<RouteView<H>>, new: RouteView<H>, i: int)
    requires
        0 <= i <= routes.len(),
        forall|j: int| 0 <= j < i ==> !(#[trigger] routes[j]).same_key(new),
        i < routes.len() ==> routes[i].same_key(new),
    ensures
        with_route(routes, new) == if i < routes.len() {
            routes.update(i, new)
        } else {
            routes.push(new)
        },
    decreases routes.len(),
{
    if routes.len() == 0 {
        assert(routes.push(new) == seq![new]);
    } else if i == 0 {
        assert(routes.update(0, new) == seq![new] + routes.skip(1));
    } else {
        assert(!routes[0].same_key(new));
        lemma_with_route(routes.skip(1), new, i - 1);
        if i < routes.len() {
            assert(routes.update(i, new) == seq![routes[0]] + routes.skip(1).update(i - 1, new));
        } else {
            assert(routes.push(new) == seq![routes[0]] + routes.skip(1).push(new));
        }
    }
}

/// The first place with a route for the same method and pattern as `new`, or the end.
proof fn lemma_place<H>(routes: Seq<RouteView<H>>, new: RouteView<H>) -> (i: int)
    ensures
        0 <= i <= routes.len(),
        forall|j: int| 0 <= j < i ==> !(#[trigger] routes[j]).same_key(new),
        i < routes.len() ==> routes[i].same_key(new),
    decreases routes.len(),
{
    if routes.len() == 0 || routes[0].same_key(new) {
        0
    } else {
        let k = lemma_place(routes.skip(1), new);
        assert forall|j: int| 0 <= j < k + 1 implies !(#[trigger] routes[j]).same_key(new) by {
            if j > 0 {
                assert(routes.skip(1)[j - 1] == routes[j]);
            }
        }
        k + 1
    }
}

/// The segments of a path are a pattern, and joined by slashes they are that path again.
pub proof fn law_path_makes_pattern(path: Seq<char>)
    ensures
        is_pattern(text::split_on(path, '/')),
        text::join_with(text::split_on(path, '/'), '/') == path,
{
    text::law_split_joins_back(path, '/');
}

/// Routes have the same key only where they were registered for the same method and the same path.
pub proof fn law_same_key_is_same_path<H>(
    a: RouteView<H>,
    b: RouteView<H>,
    path_a: Seq<char>,
    path_b: Seq<char>,
)
    requires
        a.pattern == text::split_on(path_a, '/'),
        b.pattern == text::split_on(path_b, '/'),
    ensures
        a.same_key(b) == (a.method == b.method && path_a == path_b),
{
    law_path_makes_pattern(path_a);
    law_path_makes_pattern(path_b);
}

/// Registering a route for a path keeps the routes distinct and their patterns made of paths.
pub proof fn law_routes_stay_registered<H>(routes: Seq<RouteView<H>>, new: RouteView<H>)
    requires
        registered(routes),
        is_pattern(new.pattern),
    ensures
        registered(with_route(routes, new)),
{
    let i = lemma_place(routes, new);
    lemma_with_route(routes, new, i);
}

/// The last registration for a method and a pattern is the one that counts.
pub proof fn law_last_registration_counts<H>(
    routes: Seq<RouteView<H>>,
    first: RouteView<H>,
    last: RouteView<H>,
)
    requires
        first.same_key(last),
    ensures
        with_route(with_route(routes, first), last) == with_route(routes, last),
{
    let i = lemma_place(routes, first);
    lemma_with_route(routes, first, i);
    lemma_with_route(routes, last, i);
    lemma_with_route(with_route(routes, first), last, i);
}

/// Registering a route leaves every route for another method or pattern in its place.
pub proof fn law_other_routes_stay<H>(routes: Seq<RouteView<H>>, new: RouteView<H>, j: int)
    requires
        0 <= j < routes.len(),
        !routes[j].same_key(new),
    ensures
        j < with_route(routes, new).len(),
        with_route(routes, new)[j] == routes[j],
{
    let i = lemma_place(routes, new);
    lemma_with_route(routes, new, i);
}

/// A route that alone accepts a request takes it, wherever it stands among the routes.
pub proof fn law_only_match_takes<H>(routes: Seq<RouteView<H>>, request: RequestView, i: int)
    requires
        0 <= i < routes.len(),
        routes[i].accepts(request),
        forall|j: int| 0 <= j < routes.len() && j != i ==> !(#[trigger] routes[j]).accepts(request),
    ensures
        takes(routes, request, i),
        forall|j: int| #[trigger] takes(routes, request, j) ==> j == i,
{
}

/// A pattern that fits a target fits every target that goes on from there: what lies past the
/// end of the pattern does not count.
pub proof fn law_pattern_fits_longer_targets(
    pattern: Seq<Seq<char>>,
    target: Seq<Seq<char>>,
    more: Seq<Seq<char>>,
)
    requires
        fits(pattern, target),
        pattern.len() <= target.len(),
    ensures
        fits(pattern, target + more),
{
    assert forall|i: int|
        0 <= i < pattern.len() && i < (target + more).len() implies is_placeholder(
        #[trigger] pattern[i],
    ) || pattern[i] == (target + more)[i] by {
        assert((target + more)[i] == target[i]);
    }
}

/// A placeholder stands for any segment: with one put in the place of a segment, a pattern still
/// fits the targets that it fitted.
pub proof fn law_placeholder_fits_any_segment(
    pattern: Seq<Seq<char>>,
    target: Seq<Seq<char>>,
    i: int,
    placeholder: Seq<char>,
)
    requires
        fits(pattern, target),
        0 <= i < pattern.len(),
        is_placeholder(placeholder),
    ensures
        fits(pattern.update(i, placeholder), target),
        forall|segment: Seq<char>|
            i < target.len() ==> #[trigger] fits(
                pattern.update(i, placeholder),
                target.update(i, segment),
            ),
{
    let open = pattern.update(i, placeholder);
    assert forall|j: int| 0 <= j < open.len() && j < target.len() implies is_placeholder(
        #[trigger] open[j],
    ) || open[j] == target[j] by {
        assert(j == i || open[j] == pattern[j]);
    }
    assert forall|segment: Seq<char>| i < target.len() implies #[trigger] fits(
        open,
        target.update(i, segment),
    ) by {
        let other = target.update(i, segment);
        assert forall|j: int| 0 <= j < open.len() && j < other.len() implies is_placeholder(
            #[trigger] open[j],
        ) || open[j] == other[j] by {
            assert(j == i || open[j] == pattern[j]);
        }
    }
}

}

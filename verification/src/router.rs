//! Routing requests to handlers, to the static file server, or to 404.

use vstd::prelude::*;

use crate::request::{Method, Request};
use crate::response::{not_found_spec, Response};
use crate::static_files::{static_relative_path, StaticServer};

verus! {

/// Something that answers requests. Every `Fn(&Request) -> Response`
/// closure is one.
pub trait Handler: Send + Sync {
    /// Whether the handler may be called with `req`.
    spec fn accepts(&self, req: &Request) -> bool;

    /// Whether `resp` is an answer the handler may give to `req`.
    spec fn answers(&self, req: &Request, resp: Response) -> bool;

    /// Answers `req`.
    fn handle(&self, req: &Request) -> (resp: Response)
        requires
            self.accepts(req),
        ensures
            self.answers(req, resp),
    ;
}

impl<F: Fn(&Request) -> Response + Send + Sync> Handler for F {
    open spec fn accepts(&self, req: &Request) -> bool {
        call_requires(*self, (req,))
    }

    open spec fn answers(&self, req: &Request, resp: Response) -> bool {
        call_ensures(*self, (req,), resp)
    }

    fn handle(&self, req: &Request) -> (resp: Response) {
        (self)(req)
    }
}

/// The exact routes, newest first.
enum RouteTable {
    Empty,
    Entry { method: Method, path: String, handler: Box<dyn Handler>, rest: Box<RouteTable> },
}

impl RouteTable {
    /// The handler of the newest route for `method` and `path`.
    spec fn lookup(&self, method: Method, path: Seq<char>) -> Option<&dyn Handler>
        decreases self,
    {
        match self {
            RouteTable::Empty => None,
            RouteTable::Entry { method: m, path: p, handler, rest } => if *m == method && p@
                == path {
                Some(&**handler)
            } else {
                rest.lookup(method, path)
            },
        }
    }

    /// Every handler in the table accepts every request.
    spec fn all_accept(&self) -> bool
        decreases self,
    {
        match self {
            RouteTable::Empty => true,
            RouteTable::Entry { handler, rest, .. } => (forall|req: &Request|
                #[trigger] handler.accepts(req)) && rest.all_accept(),
        }
    }

    proof fn lemma_lookup_accepts(&self, method: Method, path: Seq<char>, req: &Request)
        requires
            self.all_accept(),
        ensures
            self.lookup(method, path) matches Some(h) ==> h.accepts(req),
        decreases self,
    {
        if let RouteTable::Entry { method: m, path: p, handler, rest } = self {
            if !(*m == method && p@ == path) {
                rest.lemma_lookup_accepts(method, path, req);
            }
        }
    }

    fn find(&self, method: Method, path: &String) -> (r: Option<&dyn Handler>)
        ensures
            r == self.lookup(method, path@),
        decreases self,
    {
        match self {
            RouteTable::Empty => None,
            RouteTable::Entry { method: m, path: p, handler, rest } => {
                if *m == method && *p == *path {
                    Some(&**handler)
                } else {
                    rest.find(method, path)
                }
            },
        }
    }
}

/// A file to look up below a served root; `backslash` says whether `\\`
/// separates path components there.
pub struct FileLookup {
    pub root: String,
    pub relative: String,
    pub backslash: bool,
}

/// What answering a request takes.
pub enum Dispatch {
    /// The response is known.
    Respond(Response),
    /// The response depends on a file: look it up and pass the outcome to
    /// `StaticServer::reply`.
    Lookup(FileLookup),
}

/// Exact routes by method and path, an optional static file server, and
/// 404 for everything else.
pub struct Router {
    routes: RouteTable,
    static_server: Option<StaticServer>,
}

impl Router {
    /// The handler registered for `method` and `path`, if any.
    pub closed spec fn handler_for(&self, method: Method, path: Seq<char>) -> Option<&dyn Handler> {
        self.routes.lookup(method, path)
    }

    /// Whether `\\` separates path components for the static file server.
    pub closed spec fn static_backslash(&self) -> bool {
        match self.static_server {
            Some(s) => s.splits_on_backslash(),
            None => false,
        }
    }

    /// The root that the static file server serves, if there is one.
    pub closed spec fn static_root(&self) -> Option<Seq<char>> {
        match self.static_server {
            Some(s) => Some(s.served_root()),
            None => None,
        }
    }

    /// `self` is `before` with `handler` registered for exactly `method` and
    /// `path`: that pair now has a handler that accepts every request and
    /// answers as `handler` does, every other pair keeps its handler, and
    /// the static root is unchanged.
    pub open spec fn adds_route<F: Fn(&Request) -> Response>(
        self,
        before: Router,
        method: Method,
        path: Seq<char>,
        handler: F,
    ) -> bool {
        &&& self.handler_for(method, path) is Some
        &&& forall|req: &Request|
            #![trigger self.handler_for(method, path).unwrap().accepts(req)]
            self.handler_for(method, path).unwrap().accepts(req)
        &&& forall|req: &Request, resp: Response|
            #[trigger] self.handler_for(method, path).unwrap().answers(req, resp) == call_ensures(
                handler,
                (req,),
                resp,
            )
        &&& forall|m: Method, p: Seq<char>|
            !(m == method && p == path) ==> #[trigger] self.handler_for(m, p) == before.handler_for(
                m,
                p,
            )
        &&& self.static_root() == before.static_root()
        &&& self.static_backslash() == before.static_backslash()
    }

    /// `d` is how `self` answers `req`: an exact route wins first and
    /// answers as its handler does; then, for `GET` and `HEAD`, the static
    /// file server looks up the request path unless it has a `..` segment;
    /// everything else is 404.
    pub open spec fn dispatches(&self, req: &Request, d: Dispatch) -> bool {
        match self.handler_for(req.method, req.path@) {
            Some(h) => d matches Dispatch::Respond(r) && h.answers(req, r),
            None => if (req.method == Method::Get || req.method == Method::Head)
                && self.static_root() is Some && static_relative_path(
                req.path@,
                self.static_backslash(),
            ) is Some {
                d matches Dispatch::Lookup(l) && l.root@ == self.static_root().unwrap()
                    && l.relative@ == static_relative_path(req.path@, self.static_backslash()).unwrap()
                    && l.backslash == self.static_backslash()
            } else {
                d matches Dispatch::Respond(r) && r@ == not_found_spec()
            },
        }
    }

    /// Every registered handler accepts every request.
    #[verifier::type_invariant]
    spec fn wf(self) -> bool {
        self.routes.all_accept()
    }

    /// A router with no routes and no static files.
    pub fn new() -> (r: Router)
        ensures
            forall|m: Method, p: Seq<char>| r.handler_for(m, p) is None,
            r.static_root() is None,
    {
        Router { routes: RouteTable::Empty, static_server: None }
    }

    /// Registers `handler` for exactly `method` and `path`, replacing an
    /// earlier handler for the same pair.
    pub fn route<F: Fn(&Request) -> Response + Send + Sync + 'static>(
        &mut self,
        method: Method,
        path: &str,
        handler: F,
    )
        requires
            forall|req: &Request| call_requires(handler, (req,)),
        ensures
            final(self).adds_route(*old(self), method, path@, handler),
    {
        proof {
            use_type_invariant(&*self);
        }
        let b: Box<dyn Handler> = Box::new(handler);
        let mut rest = RouteTable::Empty;
        std::mem::swap(&mut rest, &mut self.routes);
        self.routes = RouteTable::Entry { method, path: path.to_owned(), handler: b, rest: Box::new(rest) };
    }

    /// Serves the files below `root` for `GET` and `HEAD` requests that no
    /// route answers.
    pub fn serve_dir(&mut self, root: &str)
        ensures
            final(self).static_root() == Some(root@),
            forall|m: Method, p: Seq<char>| #[trigger] final(self).handler_for(m, p)
                == old(self).handler_for(m, p),
    {
        proof {
            use_type_invariant(&*self);
        }
        self.static_server = Some(StaticServer::new(root));
    }

    /// Decides how to answer `req`: an exact route wins first, then the
    /// static file server for `GET` and `HEAD`, then 404. A request path
    /// with a `..` segment is never looked up.
    pub fn dispatch(&self, req: &Request) -> (d: Dispatch)
        ensures
            self.dispatches(req, d),
    {
        match self.routes.find(req.method, &req.path) {
            Some(h) => {
                proof {
                    use_type_invariant(self);
                    self.routes.lemma_lookup_accepts(req.method, req.path@, req);
                }
                return Dispatch::Respond(h.handle(req));
            },
            None => {},
        }
        if req.method == Method::Get || req.method == Method::Head {
            if let Some(ss) = &self.static_server {
                if let Some(rel) = StaticServer::relative_path(
                    req.path.as_str(),
                    ss.backslash_separates(),
                ) {
                    return Dispatch::Lookup(
                        FileLookup {
                            root: ss.root().to_owned(),
                            relative: rel,
                            backslash: ss.backslash_separates(),
                        },
                    );
                }
            }
        }
        Dispatch::Respond(Response::not_found())
    }
}

impl Default for Router {
    /// The same as `Router::new`.
    fn default() -> (r: Router)
        ensures
            forall|m: Method, p: Seq<char>| r.handler_for(m, p) is None,
            r.static_root() is None,
    {
        Router::new()
    }
}

} // verus!

verus! {

/// Registering a route changes dispatch for its method and path only: a
/// request for exactly that method and path is answered with what the new
/// handler answers, whatever was registered for it before; every other
/// request is dispatched as before.
pub proof fn lemma_route_then_dispatch<F: Fn(&Request) -> Response>(
    before: Router,
    after: Router,
    method: Method,
    path: Seq<char>,
    handler: F,
    req: &Request,
    d: Dispatch,
)
    requires
        after.adds_route(before, method, path, handler),
    ensures
        req.method == method && req.path@ == path ==> (after.dispatches(req, d) <==> (
        d matches Dispatch::Respond(r) && call_ensures(handler, (req,), r))),
        !(req.method == method && req.path@ == path) ==> (after.dispatches(req, d)
            <==> before.dispatches(req, d)),
{
    if req.method == method && req.path@ == path {
        if let Dispatch::Respond(r) = d {
            assert(after.handler_for(method, path).unwrap().answers(req, r) == call_ensures(
                handler,
                (req,),
                r,
            ));
        }
    } else {
        assert(after.handler_for(req.method, req.path@) == before.handler_for(req.method, req.path@));
    }
}

} // verus!

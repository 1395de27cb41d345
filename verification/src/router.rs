//! The route table and the connection dispatcher: exact path matching,
//! handler invocation, and response serialization.

use vstd::prelude::*;
use vstd::utf8::encode_utf8;
use crate::model::{Request, Response};
use crate::wire::{not_found_bytes, not_found_response, serialize_response, wire_bytes};

verus! {

/// A registered route: the exact path it serves, the method it was
/// registered under, and the handler to run.
pub struct Handler<F> {
    pub path: String,
    pub method: String,
    pub handler: F,
}

/// The mathematical content of a route.
pub ghost struct Route<F> {
    pub path: Seq<char>,
    pub method: Seq<char>,
    pub handler: F,
}

impl<F> Handler<F> {
    /// The route this entry stands for.
    pub open spec fn route(&self) -> Route<F> {
        Route { path: self.path@, method: self.method@, handler: self.handler }
    }
}

/// The route table, built before serving starts, and the port to serve
/// on. Routes are keyed by path alone: a later registration for the same
/// path replaces the earlier one, whatever its method.
pub struct Server<F> {
    handlers: Vec<Handler<F>>,
    port: u16,
}

/// The table after registering a route: the entry of an existing path is
/// replaced in place, a fresh path is appended.
pub open spec fn route_insert<F>(
    rs: Seq<Route<F>>,
    path: Seq<char>,
    method: Seq<char>,
    f: F,
) -> Seq<Route<F>>
    decreases rs.len(),
{
    if rs.len() == 0 {
        seq![Route { path, method, handler: f }]
    } else if rs[0].path == path {
        seq![Route { path, method, handler: f }] + rs.drop_first()
    } else {
        seq![rs[0]] + route_insert(rs.drop_first(), path, method, f)
    }
}

/// The route registered for a path, if any.
pub open spec fn spec_lookup<F>(rs: Seq<Route<F>>, path: Seq<char>) -> Option<Route<F>>
    decreases rs.len(),
{
    if rs.len() == 0 {
        None
    } else if rs[0].path == path {
        Some(rs[0])
    } else {
        spec_lookup(rs.drop_first(), path)
    }
}

/// Looking up a path right after registering it finds that registration.
pub proof fn lemma_lookup_insert_same<F>(rs: Seq<Route<F>>, p: Seq<char>, m: Seq<char>, f: F)
    ensures
        spec_lookup(route_insert(rs, p, m, f), p) == Some(Route { path: p, method: m, handler: f }),
    decreases rs.len(),
{
    if rs.len() == 0 {
    } else if rs[0].path == p {
        assert(route_insert(rs, p, m, f)[0] == (Route { path: p, method: m, handler: f }));
    } else {
        lemma_lookup_insert_same(rs.drop_first(), p, m, f);
        assert(route_insert(rs, p, m, f)[0] == rs[0]);
        assert(route_insert(rs, p, m, f).drop_first() =~= route_insert(rs.drop_first(), p, m, f));
    }
}

/// Registering one path leaves every other path's route alone.
pub proof fn lemma_lookup_insert_other<F>(
    rs: Seq<Route<F>>,
    p: Seq<char>,
    m: Seq<char>,
    f: F,
    p2: Seq<char>,
)
    requires
        p2 != p,
    ensures
        spec_lookup(route_insert(rs, p, m, f), p2) == spec_lookup(rs, p2),
    decreases rs.len(),
{
    let h = route_insert(rs, p, m, f);
    if rs.len() == 0 {
        assert(h[0].path == p);
        assert(h.drop_first() =~= Seq::<Route<F>>::empty());
        assert(spec_lookup(h, p2) == spec_lookup(h.drop_first(), p2));
    } else if rs[0].path == p {
        assert(h[0].path == p);
        assert(h.drop_first() =~= rs.drop_first());
        assert(spec_lookup(h, p2) == spec_lookup(h.drop_first(), p2));
    } else {
        assert(h[0] == rs[0]);
        lemma_lookup_insert_other(rs.drop_first(), p, m, f, p2);
        assert(h.drop_first() =~= route_insert(rs.drop_first(), p, m, f));
    }
}

/// Registering a handler for a path twice leaves only the second
/// registration to be found for that path: replacement, not appending.
pub proof fn lemma_register_twice_replaces<F>(
    rs: Seq<Route<F>>,
    p: Seq<char>,
    m1: Seq<char>,
    f1: F,
    m2: Seq<char>,
    f2: F,
)
    ensures
        spec_lookup(route_insert(route_insert(rs, p, m1, f1), p, m2, f2), p) == Some(
            Route { path: p, method: m2, handler: f2 },
        ),
{
    lemma_lookup_insert_same(route_insert(rs, p, m1, f1), p, m2, f2);
}

/// A registration only replaces or appends: every handler in the new
/// table was in the old one or is the registered one.
proof fn lemma_route_insert_handlers<F>(rs: Seq<Route<F>>, p: Seq<char>, m: Seq<char>, f: F)
    ensures
        forall|i: int|
            0 <= i < route_insert(rs, p, m, f).len() ==> (#[trigger] route_insert(
                rs,
                p,
                m,
                f,
            )[i].handler == f || exists|j: int|
                0 <= j < rs.len() && route_insert(rs, p, m, f)[i].handler == rs[j].handler),
    decreases rs.len(),
{
    let h = route_insert(rs, p, m, f);
    if rs.len() == 0 {
    } else if rs[0].path == p {
        assert forall|i: int| 0 <= i < h.len() implies (#[trigger] h[i].handler == f || exists|
            j: int,
        |
            0 <= j < rs.len() && h[i].handler == rs[j].handler) by {
            if i > 0 {
                assert(h[i] == rs[i]);
            }
        }
    } else {
        lemma_route_insert_handlers(rs.drop_first(), p, m, f);
        let t = route_insert(rs.drop_first(), p, m, f);
        assert forall|i: int| 0 <= i < h.len() implies (#[trigger] h[i].handler == f || exists|
            j: int,
        |
            0 <= j < rs.len() && h[i].handler == rs[j].handler) by {
            if i > 0 {
                assert(h[i] == t[i - 1]);
                if t[i - 1].handler != f {
                    let j = choose|j: int|
                        0 <= j < rs.drop_first().len() && t[i - 1].handler == rs.drop_first(
                        )[j].handler;
                    assert(rs.drop_first()[j] == rs[j + 1]);
                }
            }
        }
    }
}

impl<F: Fn(Request) -> Response> Server<F> {
    /// The routes the table holds, in registration order.
    pub closed spec fn routes(&self) -> Seq<Route<F>> {
        self.handlers@.map_values(|h: Handler<F>| h.route())
    }

    /// The port the server was created for.
    pub closed spec fn spec_port(&self) -> u16 {
        self.port
    }

    /// Every registered handler accepts every request.
    pub open spec fn wf(&self) -> bool {
        forall|i: int, req: Request|
            0 <= i < self.routes().len() ==> #[trigger] call_requires(
                self.routes()[i].handler,
                (req,),
            )
    }

    /// An empty route table for the given port.
    pub fn new(port: u16) -> (r: Server<F>)
        ensures
            r.routes() == Seq::<Route<F>>::empty(),
            r.spec_port() == port,
            r.wf(),
    {
        let r = Server { handlers: Vec::new(), port };
        proof {
            assert(r.routes() =~= Seq::<Route<F>>::empty());
        }
        r
    }

    /// The port the server was created for.
    pub fn port(&self) -> (r: u16)
        ensures
            r == self.spec_port(),
    {
        self.port
    }

    /// Registers `handler` for exact matches of `path` under GET,
    /// replacing whatever was registered for that path.
    pub fn get(&mut self, path: &str, handler: F)
        requires
            forall|req: Request| call_requires(handler, (req,)),
        ensures
            final(self).routes() == route_insert(old(self).routes(), path@, "GET"@, handler),
            final(self).spec_port() == old(self).spec_port(),
            old(self).wf() ==> final(self).wf(),
    {
        let entry = Handler { path: path.to_owned(), method: "GET".to_owned(), handler };
        self.insert_route(entry);
    }

    /// Registers `handler` for exact matches of `path` under POST,
    /// replacing whatever was registered for that path.
    pub fn post(&mut self, path: &str, handler: F)
        requires
            forall|req: Request| call_requires(handler, (req,)),
        ensures
            final(self).routes() == route_insert(old(self).routes(), path@, "POST"@, handler),
            final(self).spec_port() == old(self).spec_port(),
            old(self).wf() ==> final(self).wf(),
    {
        let entry = Handler { path: path.to_owned(), method: "POST".to_owned(), handler };
        self.insert_route(entry);
    }

    /// Puts one entry into the table, as `route_insert` describes.
    fn insert_route(&mut self, entry: Handler<F>)
        requires
            forall|req: Request| call_requires(entry.handler, (req,)),
        ensures
            final(self).routes() == route_insert(
                old(self).routes(),
                entry.path@,
                entry.method@,
                entry.handler,
            ),
            final(self).spec_port() == old(self).spec_port(),
            old(self).wf() ==> final(self).wf(),
    {
        let n = self.handlers.len();
        let mut i: usize = 0;
        let ghost rs = self.routes();
        let ghost entry0 = entry;
        while i < n
            invariant
                n == self.handlers@.len(),
                0 <= i <= n,
                *self == *old(self),
                rs == self.routes(),
                entry0 == entry,
                forall|req: Request| call_requires(entry0.handler, (req,)),
                forall|j: int| 0 <= j < i ==> #[trigger] self.handlers@[j].path@ != entry.path@,
            decreases n - i,
        {
            if crate::text::str_eq(self.handlers[i].path.as_str(), entry.path.as_str()) {
                let ghost new_route = entry0.route();
                self.handlers.remove(i);
                self.handlers.insert(i, entry);
                proof {
                    assert(self.handlers@[i as int].route() == new_route);
                    assert(rs[i as int].path == new_route.path);
                    lemma_route_insert_at_one(rs, i as int, new_route.method, new_route.handler);
                    assert(self.handlers@ =~= old(self).handlers@.update(
                        i as int,
                        self.handlers@[i as int],
                    ));
                    assert(self.routes() =~= rs.update(i as int, new_route));
                    assert(self.routes() =~= route_insert(
                        rs,
                        new_route.path,
                        new_route.method,
                        new_route.handler,
                    ));
                    assert forall|req: Request| call_requires(new_route.handler, (req,)) by {
                        assert(call_requires(entry0.handler, (req,)));
                    }
                    finish_wf(old(self).routes(), self.routes(), new_route);
                }
                return ;
            }
            i = i + 1;
        }
        self.handlers.push(entry);
        proof {
            lemma_route_insert_append(rs, self.handlers@[n as int].route());
            assert(self.routes() =~= rs.push(self.handlers@[n as int].route()));
            finish_wf(old(self).routes(), self.routes(), self.handlers@[n as int].route());
        }
    }

    /// The registered entry whose path is exactly `path`, if any.
    pub fn lookup(&self, path: &str) -> (r: Option<&Handler<F>>)
        ensures
            match r {
                Some(h) => spec_lookup(self.routes(), path@) == Some(h.route()),
                None => spec_lookup(self.routes(), path@) is None,
            },
    {
        let n = self.handlers.len();
        let mut i: usize = 0;
        while i < n
            invariant
                n == self.handlers@.len(),
                0 <= i <= n,
                forall|j: int| 0 <= j < i ==> #[trigger] self.handlers@[j].path@ != path@,
            decreases n - i,
        {
            if crate::text::str_eq(self.handlers[i].path.as_str(), path) {
                proof {
                    lemma_lookup_first(self.routes(), path@, i as int);
                }
                return Some(&self.handlers[i]);
            }
            i = i + 1;
        }
        proof {
            lemma_lookup_none(self.routes(), path@);
        }
        None
    }

    /// Serves one parsed request: the matching handler's response is
    /// serialized with its status code and body unchanged and a
    /// `Content-Length` equal to the byte length of its body; a request
    /// whose path no handler matches gets the fixed 404 response.
    pub fn dispatch(&self, req: Request) -> (out: Vec<u8>)
        requires
            self.wf(),
        ensures
            match spec_lookup(self.routes(), req.path@) {
                Some(route) => exists|resp: Response|
                    #[trigger] call_ensures(route.handler, (req,), resp) && out@ == wire_bytes(
                        resp.response_code,
                        encode_utf8(resp.body@),
                    ),
                None => out@ == not_found_bytes(),
            },
    {
        let found = self.lookup(req.path.as_str());
        match found {
            Some(h) => {
                proof {
                    lemma_lookup_in_table(self.routes(), req.path@);
                    let i = choose|i: int|
                        0 <= i < self.routes().len() && self.routes()[i] == h.route();
                    assert(call_requires(self.routes()[i].handler, (req,)));
                }
                let resp = (h.handler)(req);
                let out = serialize_response(&resp);
                proof {
                    let route = spec_lookup(self.routes(), req.path@)->Some_0;
                    assert(route == h.route());
                    assert(call_ensures(route.handler, (req,), resp));
                }
                out
            },
            None => not_found_response(),
        }
    }
}

/// Replacing the first entry that carries the path is exactly
/// `route_insert`.
proof fn lemma_route_insert_at_one<F>(rs: Seq<Route<F>>, i: int, m: Seq<char>, f: F)
    requires
        0 <= i < rs.len(),
        forall|j: int| 0 <= j < i ==> rs[j].path != rs[i].path,
    ensures
        route_insert(rs, rs[i].path, m, f) =~= rs.update(
            i,
            Route { path: rs[i].path, method: m, handler: f },
        ),
    decreases i,
{
    if i == 0 {
        assert(route_insert(rs, rs[0].path, m, f) =~= seq![
            Route { path: rs[0].path, method: m, handler: f },
        ] + rs.drop_first());
    } else {
        assert(rs[0].path != rs[i].path);
        assert(rs.drop_first()[i - 1] == rs[i]);
        lemma_route_insert_at_one(rs.drop_first(), i - 1, m, f);
        assert(rs.update(i, Route { path: rs[i].path, method: m, handler: f }).drop_first()
            =~= rs.drop_first().update(i - 1, Route { path: rs[i].path, method: m, handler: f }));
    }
}

/// Appending is exactly `route_insert` when no entry carries the path.
proof fn lemma_route_insert_append<F>(rs: Seq<Route<F>>, entry: Route<F>)
    requires
        forall|j: int| 0 <= j < rs.len() ==> rs[j].path != entry.path,
    ensures
        route_insert(rs, entry.path, entry.method, entry.handler) =~= rs.push(entry),
    decreases rs.len(),
{
    if rs.len() == 0 {
    } else {
        lemma_route_insert_append(rs.drop_first(), entry);
        assert(rs.push(entry).drop_first() =~= rs.drop_first().push(entry));
    }
}

/// The table keeps only old handlers and the registered one, so
/// registration preserves well-formedness.
proof fn finish_wf<F: Fn(Request) -> Response>(
    olds: Seq<Route<F>>,
    news: Seq<Route<F>>,
    entry: Route<F>,
)
    requires
        forall|req: Request| call_requires(entry.handler, (req,)),
        news =~= route_insert(olds, entry.path, entry.method, entry.handler),
    ensures
        (forall|i: int, req: Request|
            0 <= i < olds.len() ==> #[trigger] call_requires(olds[i].handler, (req,))) ==> (forall|
            i: int,
            req: Request,
        |
            0 <= i < news.len() ==> #[trigger] call_requires(news[i].handler, (req,))),
{
    if forall|i: int, req: Request|
        0 <= i < olds.len() ==> #[trigger] call_requires(olds[i].handler, (req,)) {
        lemma_route_insert_handlers(olds, entry.path, entry.method, entry.handler);
        assert forall|i: int, req: Request|
            0 <= i < news.len() implies #[trigger] call_requires(news[i].handler, (req,)) by {
            if news[i].handler != entry.handler {
                let j = choose|j: int| 0 <= j < olds.len() && news[i].handler == olds[j].handler;
                assert(call_requires(olds[j].handler, (req,)));
            }
        }
    }
}

/// A lookup lands on the first entry that carries the path.
proof fn lemma_lookup_first<F>(rs: Seq<Route<F>>, p: Seq<char>, i: int)
    requires
        0 <= i < rs.len(),
        rs[i].path == p,
        forall|j: int| 0 <= j < i ==> rs[j].path != p,
    ensures
        spec_lookup(rs, p) == Some(rs[i]),
    decreases i,
{
    if i == 0 {
    } else {
        lemma_lookup_first(rs.drop_first(), p, i - 1);
    }
}

/// A found route stands somewhere in the table.
proof fn lemma_lookup_in_table<F>(rs: Seq<Route<F>>, p: Seq<char>)
    ensures
        spec_lookup(rs, p) matches Some(r) ==> exists|i: int| 0 <= i < rs.len() && rs[i] == r,
    decreases rs.len(),
{
    if rs.len() == 0 {
    } else if rs[0].path == p {
        assert(rs[0] == spec_lookup(rs, p)->Some_0);
    } else {
        lemma_lookup_in_table(rs.drop_first(), p);
        if spec_lookup(rs, p) is Some {
            let r = spec_lookup(rs, p)->Some_0;
            let i = choose|i: int| 0 <= i < rs.drop_first().len() && rs.drop_first()[i] == r;
            assert(rs[i + 1] == r);
        }
    }
}

/// A lookup of an unregistered path finds nothing.
proof fn lemma_lookup_none<F>(rs: Seq<Route<F>>, p: Seq<char>)
    requires
        forall|j: int| 0 <= j < rs.len() ==> rs[j].path != p,
    ensures
        spec_lookup(rs, p) is None,
    decreases rs.len(),
{
    if rs.len() == 0 {
    } else {
        lemma_lookup_none(rs.drop_first(), p);
    }
}

} // verus!

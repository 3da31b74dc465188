//! The route table and request dispatch: routes are registered per HTTP
//! method in order, an incoming method/path pair resolves to the first
//! registered route whose pattern matches, and chain outcomes are mapped to
//! the parts of an HTTP response so that every request gets one.

use core::marker::PhantomData;
use vstd::prelude::*;

use crate::errors::Error;
use crate::errors::ServerError;
use crate::handler::Handler;
use crate::handler::chain_callable;
use crate::handler::performs;
use crate::params::Params;
use crate::path::Path;
use crate::path::bind_spec;
use crate::path::fail_message;
use crate::path::match_spec;
use crate::path::parse_spec;

verus! {

/// The HTTP methods a route can be registered under.
#[derive(Clone, Copy, PartialEq, Eq, Structural, Debug)]
pub enum Method {
    Get,
    Post,
    Delete,
    Put,
    Options,
    Patch,
    Head,
    Connect,
    Trace,
}

/// One registration: a method, the parsed pattern, and the handler chain
/// (or any other payload) that serves it. Immutable once registered.
pub struct Route<C> {
    pub method: Method,
    pub path: Path,
    pub handler: C,
}

/// The ordered collection of registrations. Resolution scans them in
/// registration order and takes the first whose pattern matches; when
/// several registered patterns can match one concrete path, registration
/// order decides, deterministically.
pub struct Router<C> {
    routes: Vec<Route<C>>,
}

/// Does this registration serve the given method and path?
pub open spec fn route_matches<C>(rt: Route<C>, method: Method, path: Seq<char>) -> bool {
    rt.method == method && parse_spec(path) is Ok && match_spec(rt.path@, path)
}

impl<C> Router<C> {
    /// The registrations, in registration order.
    pub closed spec fn entries(&self) -> Seq<Route<C>> {
        self.routes@
    }

    /// An empty route table.
    pub fn new() -> (r: Self)
        ensures
            r.entries() == Seq::<Route<C>>::empty(),
    {
        Router { routes: Vec::new() }
    }

    /// Register a route. The declaration is parsed; a declaration that does
    /// not parse fails the whole registration and leaves the table
    /// untouched.
    pub fn add(&mut self, method: Method, path: String, handler: C) -> (r: Result<(), ServerError>)
        ensures
            match r {
                Ok(_) => {
                    &&& parse_spec(path@) is Ok
                    &&& final(self).entries().len() == old(self).entries().len() + 1
                    &&& final(self).entries().drop_last() == old(self).entries()
                    &&& final(self).entries().last().method == method
                    &&& final(self).entries().last().path@ == parse_spec(path@)->Ok_0
                    &&& final(self).entries().last().handler == handler
                },
                Err(e) => {
                    &&& parse_spec(path@) matches Err(k) && e@ == fail_message(k)
                    &&& final(self).entries() == old(self).entries()
                },
            },
    {
        match Path::new(path) {
            Ok(p) => {
                self.routes.push(Route { method, path: p, handler });
                proof {
                    assert(self.routes@.drop_last() =~= old(self).routes@);
                }
                Ok(())
            },
            Err(e) => Err(e),
        }
    }

    /// Resolve a request to the first registered route whose method and
    /// pattern match, together with the extracted parameters. When nothing
    /// matches, fail with the HTTP status for a missing resource.
    pub fn find<'a>(&'a self, method: Method, path: &String) -> (r: Result<(&'a C, Params), Error>)
        ensures
            match r {
                Ok((c, ps)) => exists|i: int|
                    {
                        &&& 0 <= i < self.entries().len()
                        &&& #[trigger] route_matches(self.entries()[i], method, path@)
                        &&& forall|j: int|
                            0 <= j < i ==> !route_matches(
                                #[trigger] self.entries()[j],
                                method,
                                path@,
                            )
                        &&& *c == self.entries()[i].handler
                        &&& ps@ == bind_spec(self.entries()[i].path@, path@)
                    },
                Err(e) => {
                    &&& forall|j: int|
                        0 <= j < self.entries().len() ==> !route_matches(
                            #[trigger] self.entries()[j],
                            method,
                            path@,
                        )
                    &&& e matches Error::StatusCode(code, m) && code == 404 && m@ == "not found"@
                },
            },
    {
        let n = self.routes.len();
        let mut i: usize = 0;
        while i < n
            invariant
                i <= n,
                n == self.entries().len(),
                forall|j: int|
                    0 <= j < i ==> !route_matches(#[trigger] self.entries()[j], method, path@),
            decreases n - i,
        {
            let rt = &self.routes[i];
            if rt.method == method {
                match rt.path.extract(path.clone()) {
                    Ok(ps) => {
                        proof {
                            assert(route_matches(self.entries()[i as int], method, path@));
                        }
                        return Ok((&rt.handler, ps));
                    },
                    Err(_) => {},
                }
            }
            i = i + 1;
        }
        Err(Error::StatusCode(404, "not found".to_owned()))
    }
}

impl<R, S, D, T, F> Router<Handler<R, S, D, T, F>> where
    F: Fn(R, Option<S>, &Params, &D, T) -> Result<(R, Option<S>, T), Error>,
 {
    /// Resolve and run: the first matching chain is performed on the
    /// request, with the extracted parameters, no response yet, and the
    /// given initial transient state. A path that no registered route
    /// matches yields the missing-resource failure without any handler
    /// running; otherwise the result is the chain's, with the final
    /// transient state dropped.
    pub fn dispatch(&self, method: Method, path: &String, req: R, d: &D, st: T) -> (r: Result<
        (R, Option<S>),
        Error,
    >)
        requires
            forall|i: int|
                0 <= i < self.entries().len() ==> chain_callable(
                    #[trigger] self.entries()[i].handler,
                ),
        ensures
            ({
                ||| {
                    &&& forall|j: int|
                        0 <= j < self.entries().len() ==> !route_matches(
                            #[trigger] self.entries()[j],
                            method,
                            path@,
                        )
                    &&& r matches Err(e) && e matches Error::StatusCode(code, m) && code == 404
                        && m@ == "not found"@
                }
                ||| exists|i: int, ps: Params, inner: Result<(R, Option<S>, T), Error>|
                    {
                        &&& 0 <= i < self.entries().len()
                        &&& #[trigger] route_matches(self.entries()[i], method, path@)
                        &&& forall|j: int|
                            0 <= j < i ==> !route_matches(
                                #[trigger] self.entries()[j],
                                method,
                                path@,
                            )
                        &&& ps@ == bind_spec(self.entries()[i].path@, path@)
                        &&& #[trigger] performs(
                            self.entries()[i].handler,
                            req,
                            None::<S>,
                            ps,
                            *d,
                            st,
                            inner,
                        )
                        &&& r == (match inner {
                            Ok((a, b, _)) => Ok::<(R, Option<S>), Error>((a, b)),
                            Err(e) => Err::<(R, Option<S>), Error>(e),
                        })
                    }
            }),
    {
        match self.find(method, path) {
            Err(e) => Err(e),
            Ok((chain, ps)) => {
                let out = chain.perform(req, None, &ps, d, st);
                match out {
                    Ok((a, b, _st)) => Ok((a, b)),
                    Err(e) => Err(e),
                }
            },
        }
    }
}

/// Turn a finished dispatch into the parts of the HTTP response owed to the
/// client: a produced response passes through; a chain that never set one is
/// an internal server error; an explicit status failure keeps its status and
/// its message verbatim as the body; any other failure is an internal server
/// error with its message as the body.
pub fn to_response_parts<S>(r: Result<Option<S>, Error>) -> (out: Result<S, (u16, String)>)
    ensures
        match r {
            Ok(o) => match o {
                Some(resp) => out matches Ok(s2) && s2 == resp,
                None => out matches Err((c, b)) && c == 500u16 && b@
                    == "internal server error"@,
            },
            Err(e) => match e {
                Error::StatusCode(c0, m) => out matches Err((c, b)) && c == c0 && b@ == m@,
                Error::InternalServerError(m) => out matches Err((c, b)) && c == 500u16 && b@
                    == m@,
            },
        },
{
    match r {
        Ok(Some(resp)) => Ok(resp),
        Ok(None) => Err((500, "internal server error".to_owned())),
        Err(Error::StatusCode(c, m)) => Err((c, m)),
        Err(Error::InternalServerError(m)) => Err((500, m)),
    }
}

} // verus!

//! Handler chains: a chain-of-responsibility composition of handler steps.
//! Steps run strictly in order, threading the request, the optional response
//! and the transient state; a failing step stops the chain at once, while a
//! step that merely sets a response does not.

use core::marker::PhantomData;
use vstd::prelude::*;

use crate::errors::Error;
use crate::params::Params;

verus! {

/// A chain of handler steps: each node owns its step and, exclusively, its
/// successor. `R` is the request type, `S` the response type, `D` the
/// dispatcher handle, `T` the transient state, and `F` the step type: a
/// function from (request, optional response, parameters, dispatcher handle,
/// transient state) to the updated triple or a failure.
#[verifier::reject_recursive_types(R)]
#[verifier::reject_recursive_types(S)]
#[verifier::reject_recursive_types(D)]
#[verifier::reject_recursive_types(T)]
#[verifier::reject_recursive_types(F)]
pub struct Handler<R, S, D, T, F> where
    F: Fn(R, Option<S>, &Params, &D, T) -> Result<(R, Option<S>, T), Error>,
 {
    /// The step this node runs.
    pub handler: F,
    /// The rest of the chain, if any.
    pub next: Option<Box<Handler<R, S, D, T, F>>>,
    /// The chain stores nothing else of its type parameters.
    pub marker: PhantomData<(R, S, D, T)>,
}

/// Can the step be called on every input? Holds trivially for ordinary
/// (unverified) handler functions, which have no precondition.
pub open spec fn step_callable<R, S, D, T, F: Fn(R, Option<S>, &Params, &D, T) -> Result<
    (R, Option<S>, T),
    Error,
>>(f: F) -> bool {
    forall|req: R, resp: Option<S>, params: &Params, d: &D, st: T|
        call_requires(f, (req, resp, params, d, st))
}

/// Can every step of the chain be called on every input?
pub open spec fn chain_callable<R, S, D, T, F: Fn(R, Option<S>, &Params, &D, T) -> Result<
    (R, Option<S>, T),
    Error,
>>(h: Handler<R, S, D, T, F>) -> bool
    decreases h,
{
    step_callable(h.handler) && match h.next {
        Some(n) => chain_callable(*n),
        None => true,
    }
}

/// How the chain's result comes about: some outcome `mid` of the first step
/// (as its postcondition `call_ensures` allows) either is a failure, which
/// is the chain's result at once, or hands the updated triple to the rest of
/// the chain. Whether `mid` carries a response has no influence on whether
/// the rest runs.
pub open spec fn performs<R, S, D, T, F: Fn(R, Option<S>, &Params, &D, T) -> Result<
    (R, Option<S>, T),
    Error,
>>(
    h: Handler<R, S, D, T, F>,
    req: R,
    resp: Option<S>,
    params: Params,
    d: D,
    st: T,
    r: Result<(R, Option<S>, T), Error>,
) -> bool
    decreases h,
{
    exists|mid: Result<(R, Option<S>, T), Error>|
        #[trigger] call_ensures(h.handler, (req, resp, &params, &d, st), mid) && match mid {
            Err(e) => r == Err::<(R, Option<S>, T), Error>(e),
            Ok((req2, resp2, st2)) => match h.next {
                Some(n) => performs(*n, req2, resp2, params, d, st2, r),
                None => r == Ok::<(R, Option<S>, T), Error>((req2, resp2, st2)),
            },
        }
}

impl<R, S, D, T, F> Handler<R, S, D, T, F> where
    F: Fn(R, Option<S>, &Params, &D, T) -> Result<(R, Option<S>, T), Error>,
 {
    /// Build a chain node from a step and an optional rest of the chain.
    pub fn new(handler: F, next: Option<Handler<R, S, D, T, F>>) -> (r: Self)
        ensures
            r.handler == handler,
            match (r.next, next) {
                (Some(b), Some(n)) => *b == n,
                (None, None) => true,
                _ => false,
            },
    {
        match next {
            Some(n) => Handler { handler, next: Some(Box::new(n)), marker: PhantomData },
            None => Handler { handler, next: None, marker: PhantomData },
        }
    }

    /// Run the chain on a request. Steps run strictly in order; every step
    /// receives the same parameters and the evolving request/response pair
    /// and state. The first failure ends the chain and is returned as is; a
    /// response being set does not end it.
    pub fn perform(&self, req: R, resp: Option<S>, params: &Params, d: &D, st: T) -> (r: Result<
        (R, Option<S>, T),
        Error,
    >)
        requires
            chain_callable(*self),
        ensures
            performs(*self, req, resp, *params, *d, st, r),
        decreases *self,
    {
        let mid = (self.handler)(req, resp, params, d, st);
        match mid {
            Err(e) => Err(e),
            Ok((req2, resp2, st2)) => match &self.next {
                None => Ok((req2, resp2, st2)),
                Some(n) => n.perform(req2, resp2, params, d, st2),
            },
        }
    }
}

/// A failing step ends the chain at once: if every outcome the step admits
/// is a failure, the chain's result is one of the step's own failures,
/// whatever hangs after the step. Nothing downstream can run or alter it.
pub proof fn lemma_chain_short_circuit<R, S, D, T, F: Fn(R, Option<S>, &Params, &D, T) -> Result<
    (R, Option<S>, T),
    Error,
>>(
    h: Handler<R, S, D, T, F>,
    req: R,
    resp: Option<S>,
    params: Params,
    d: D,
    st: T,
    r: Result<(R, Option<S>, T), Error>,
)
    requires
        performs(h, req, resp, params, d, st, r),
        forall|args: (R, Option<S>, &Params, &D, T), out: Result<(R, Option<S>, T), Error>|
            #[trigger] call_ensures(h.handler, args, out) ==> out is Err,
    ensures
        r is Err,
        call_ensures(h.handler, (req, resp, &params, &d, st), r),
{
    let mid = choose|mid: Result<(R, Option<S>, T), Error>|
        #[trigger] call_ensures(h.handler, (req, resp, &params, &d, st), mid) && match mid {
            Err(e) => r == Err::<(R, Option<S>, T), Error>(e),
            Ok((req2, resp2, st2)) => match h.next {
                Some(n) => performs(*n, req2, resp2, params, d, st2, r),
                None => r == Ok::<(R, Option<S>, T), Error>((req2, resp2, st2)),
            },
        };
    assert(mid is Err);
}

/// A step that merely sets a response does not end the chain: when the first
/// step always succeeds and always leaves a response in place, the chain's
/// result is a result of running the rest of the chain on what the step
/// handed over, response included.
pub proof fn lemma_chain_continues_after_response<
    R,
    S,
    D,
    T,
    F: Fn(R, Option<S>, &Params, &D, T) -> Result<(R, Option<S>, T), Error>,
>(
    h: Handler<R, S, D, T, F>,
    n: Handler<R, S, D, T, F>,
    req: R,
    resp: Option<S>,
    params: Params,
    d: D,
    st: T,
    r: Result<(R, Option<S>, T), Error>,
)
    requires
        performs(h, req, resp, params, d, st, r),
        h.next matches Some(b) && *b == n,
        forall|args: (R, Option<S>, &Params, &D, T), out: Result<(R, Option<S>, T), Error>|
            #[trigger] call_ensures(h.handler, args, out) ==> (out matches Ok(v) && v.1 is Some),
    ensures
        exists|req2: R, resp2: Option<S>, st2: T|
            resp2 is Some && #[trigger] performs(n, req2, resp2, params, d, st2, r),
{
    let mid = choose|mid: Result<(R, Option<S>, T), Error>|
        #[trigger] call_ensures(h.handler, (req, resp, &params, &d, st), mid) && match mid {
            Err(e) => r == Err::<(R, Option<S>, T), Error>(e),
            Ok((req2, resp2, st2)) => match h.next {
                Some(nn) => performs(*nn, req2, resp2, params, d, st2, r),
                None => r == Ok::<(R, Option<S>, T), Error>((req2, resp2, st2)),
            },
        };
    let (req2, resp2, st2) = mid->Ok_0;
    assert(resp2 is Some && performs(n, req2, resp2, params, d, st2, r));
}

} // verus!

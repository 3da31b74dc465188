use davisjr::errors::Error;
use davisjr::handler::Handler;
use davisjr::params::Params;
use davisjr::NoState;

// A bare-bones request: a list of header name/value pairs.
#[derive(Default, Debug)]
struct Req {
    headers: Vec<(String, String)>,
}

impl Req {
    fn header(&self, name: &str) -> Option<&str> {
        self.headers
            .iter()
            .find(|(n, _)| n == name)
            .map(|(_, v)| v.as_str())
    }
}

// A bare-bones response: just a status.
#[derive(Debug)]
struct Resp {
    status: u16,
}

type Step = fn(
    Req,
    Option<Resp>,
    &Params,
    &(),
    NoState,
) -> Result<(Req, Option<Resp>, NoState), Error>;

type Chain = Handler<Req, Resp, (), NoState, Step>;

// this step adds a header:
// wakka: wakka wakka
// to the request. that's it!
fn one(
    mut req: Req,
    _response: Option<Resp>,
    _params: &Params,
    _d: &(),
    state: NoState,
) -> Result<(Req, Option<Resp>, NoState), Error> {
    req.headers
        .push(("wakka".to_string(), "wakka wakka".to_string()));
    Ok((req, None, state))
}

// this step returns an OK status when the wakka header exists.
fn two(
    req: Req,
    mut response: Option<Resp>,
    _params: &Params,
    _d: &(),
    state: NoState,
) -> Result<(Req, Option<Resp>, NoState), Error> {
    if let Some(header) = req.header("wakka") {
        if header != "wakka wakka" {
            return Err(Error::new("invalid header value".to_string()));
        }

        if response.is_some() {
            return Ok((req, response, state));
        } else {
            response.replace(Resp { status: 200 });
            return Ok((req, response, state));
        }
    }

    Err(Error::default())
}

// orchestration!!!!
#[test]
fn test_handler_basic() {
    // single stage handler that never yields a response
    let bh: Chain = Handler::new(one, None);
    let req = Req::default();
    let (req, response, _) = bh
        .perform(req, None, &Params::new(), &(), NoState)
        .unwrap();
    if !req.header("wakka").is_some() {
        panic!("no wakkas")
    }

    if response.is_some() {
        panic!("response should be none at this point")
    }

    // two-stage handler; yields a response if the first one was good.
    let bh_two: Chain = Handler::new(two, None);
    let bh: Chain = Handler::new(one, Some(bh_two));
    let (_, response, _) = bh
        .perform(req, None, &Params::new(), &(), NoState)
        .unwrap();

    if !(response.is_some() && response.unwrap().status == 200) {
        panic!("response not ok")
    }

    let bh_two: Chain = Handler::new(two, None);
    if !bh_two
        .perform(Req::default(), None, &Params::new(), &(), NoState)
        .is_err()
    {
        panic!("no error")
    }

    drop(bh)
}

// Steps run in order and each sees what the one before left behind.
type TraceStep = fn(
    Req,
    Option<Resp>,
    &Params,
    &(),
    Vec<String>,
) -> Result<(Req, Option<Resp>, Vec<String>), Error>;

type TraceChain = Handler<Req, Resp, (), Vec<String>, TraceStep>;

fn trace_one(
    req: Req,
    resp: Option<Resp>,
    _params: &Params,
    _d: &(),
    mut state: Vec<String>,
) -> Result<(Req, Option<Resp>, Vec<String>), Error> {
    state.push("one".to_string());
    Ok((req, resp, state))
}

fn trace_two_fails(
    _req: Req,
    _resp: Option<Resp>,
    _params: &Params,
    _d: &(),
    _state: Vec<String>,
) -> Result<(Req, Option<Resp>, Vec<String>), Error> {
    Err(Error::new_status(418, "teapot".to_string()))
}

fn trace_three_responds(
    req: Req,
    mut resp: Option<Resp>,
    _params: &Params,
    _d: &(),
    mut state: Vec<String>,
) -> Result<(Req, Option<Resp>, Vec<String>), Error> {
    state.push("three".to_string());
    if resp.is_none() {
        resp = Some(Resp { status: 200 });
    }
    Ok((req, resp, state))
}

fn trace_sets_response(
    req: Req,
    _resp: Option<Resp>,
    _params: &Params,
    _d: &(),
    mut state: Vec<String>,
) -> Result<(Req, Option<Resp>, Vec<String>), Error> {
    state.push("set".to_string());
    Ok((req, Some(Resp { status: 201 }), state))
}

// A chain of three steps where the second fails: the third never runs (it
// would have produced a response and a trace entry) and the failure of the
// second surfaces exactly.
#[test]
fn test_chain_short_circuits_on_failure() {
    let chain: TraceChain = Handler::new(
        trace_one,
        Some(Handler::new(
            trace_two_fails,
            Some(Handler::new(trace_three_responds, None)),
        )),
    );
    let err = chain
        .perform(Req::default(), None, &Params::new(), &(), Vec::new())
        .unwrap_err();
    match err {
        Error::StatusCode(code, msg) => {
            assert_eq!(code, 418);
            assert_eq!(msg, "teapot");
        }
        other => panic!("wrong failure kind: {other:?}"),
    }
}

// A chain where the first step sets a response: the later steps still run,
// and the response survives to the end.
#[test]
fn test_chain_runs_on_after_response() {
    let chain: TraceChain = Handler::new(
        trace_sets_response,
        Some(Handler::new(
            trace_one,
            Some(Handler::new(trace_three_responds, None)),
        )),
    );
    let (_, resp, trace) = chain
        .perform(Req::default(), None, &Params::new(), &(), Vec::new())
        .unwrap();
    assert_eq!(trace, vec!["set".to_string(), "one".to_string(), "three".to_string()]);
    assert_eq!(resp.unwrap().status, 201);
}

// A chain that completes without ever setting a response is not an error at
// the chain level.
#[test]
fn test_chain_without_response_is_not_an_error() {
    let chain: TraceChain = Handler::new(trace_one, None);
    let (_, resp, trace) = chain
        .perform(Req::default(), None, &Params::new(), &(), Vec::new())
        .unwrap();
    assert!(resp.is_none());
    assert_eq!(trace, vec!["one".to_string()]);
}

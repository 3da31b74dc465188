use davisjr::errors::Error;
use davisjr::handler::Handler;
use davisjr::params::Params;
use davisjr::router::{to_response_parts, Method, Router};

#[derive(Default, Debug)]
struct Req {
    body: String,
}

#[derive(Debug)]
struct Resp {
    status: u16,
    body: String,
}

type Step = fn(
    Req,
    Option<Resp>,
    &Params,
    &(),
    Vec<String>,
) -> Result<(Req, Option<Resp>, Vec<String>), Error>;

type Chain = Handler<Req, Resp, (), Vec<String>, Step>;

fn greet(
    req: Req,
    _resp: Option<Resp>,
    params: &Params,
    _d: &(),
    state: Vec<String>,
) -> Result<(Req, Option<Resp>, Vec<String>), Error> {
    let name = params
        .get("name")
        .map(|s| s.clone())
        .unwrap_or_else(|| "world".to_string());
    let resp = Resp {
        status: 200,
        body: format!("hello, {name}"),
    };
    Ok((req, Some(resp), state))
}

fn tag_first(
    req: Req,
    _resp: Option<Resp>,
    _params: &Params,
    _d: &(),
    state: Vec<String>,
) -> Result<(Req, Option<Resp>, Vec<String>), Error> {
    let resp = Resp {
        status: 200,
        body: "first".to_string(),
    };
    Ok((req, Some(resp), state))
}

fn tag_second(
    req: Req,
    _resp: Option<Resp>,
    _params: &Params,
    _d: &(),
    state: Vec<String>,
) -> Result<(Req, Option<Resp>, Vec<String>), Error> {
    let resp = Resp {
        status: 200,
        body: "second".to_string(),
    };
    Ok((req, Some(resp), state))
}

fn must_not_run(
    _req: Req,
    _resp: Option<Resp>,
    _params: &Params,
    _d: &(),
    _state: Vec<String>,
) -> Result<(Req, Option<Resp>, Vec<String>), Error> {
    panic!("a handler ran for a path that matches no route")
}

fn no_response(
    req: Req,
    _resp: Option<Resp>,
    _params: &Params,
    _d: &(),
    state: Vec<String>,
) -> Result<(Req, Option<Resp>, Vec<String>), Error> {
    Ok((req, None, state))
}

// Dispatching a path with no registered match yields 404 without invoking
// any handler.
#[test]
fn test_router_fallback_is_404() {
    let mut router: Router<Chain> = Router::new();
    router
        .add(Method::Get, "/known".to_string(), Handler::new(must_not_run, None))
        .unwrap();
    let result = router.dispatch(
        Method::Get,
        &"/unknown".to_string(),
        Req::default(),
        &(),
        Vec::new(),
    );
    let err = result.unwrap_err();
    match err {
        Error::StatusCode(code, msg) => {
            assert_eq!(code, 404);
            assert_eq!(msg, "not found");
        }
        other => panic!("wrong failure kind: {other:?}"),
    }

    // a method mismatch is a miss too
    let result = router.dispatch(
        Method::Post,
        &"/known".to_string(),
        Req::default(),
        &(),
        Vec::new(),
    );
    assert!(result.is_err());
}

// Parameters reach the handler exactly as extracted from the path.
#[test]
fn test_router_extracts_params() {
    let mut router: Router<Chain> = Router::new();
    router
        .add(Method::Get, "/hello/:name".to_string(), Handler::new(greet, None))
        .unwrap();
    let (_, resp) = router
        .dispatch(
            Method::Get,
            &"/hello/dave".to_string(),
            Req::default(),
            &(),
            Vec::new(),
        )
        .unwrap();
    assert_eq!(resp.unwrap().body, "hello, dave");
}

// A bad declaration fails the whole registration and mutates nothing.
#[test]
fn test_router_rejects_bad_declaration() {
    let mut router: Router<Chain> = Router::new();
    let err = router
        .add(Method::Get, "/a/*/:oops".to_string(), Handler::new(greet, None))
        .unwrap_err();
    assert_eq!(
        err.0,
        "params may not immediately follow wildcards due to ambiguity"
    );
    // the failed registration left no route behind
    let result = router.dispatch(
        Method::Get,
        &"/a/x/y".to_string(),
        Req::default(),
        &(),
        Vec::new(),
    );
    assert!(result.is_err());
}

// When two registered patterns match the same path, the one registered
// first wins.
#[test]
fn test_router_first_registration_wins() {
    let mut router: Router<Chain> = Router::new();
    router
        .add(Method::Get, "/x/*".to_string(), Handler::new(tag_first, None))
        .unwrap();
    router
        .add(Method::Get, "/x/:id".to_string(), Handler::new(tag_second, None))
        .unwrap();
    let (_, resp) = router
        .dispatch(
            Method::Get,
            &"/x/anything".to_string(),
            Req::default(),
            &(),
            Vec::new(),
        )
        .unwrap();
    assert_eq!(resp.unwrap().body, "first");
}

// The boundary mapping: a produced response passes through; no response is
// a 500 with the generic body; explicit statuses and internal failures keep
// their messages verbatim as the body.
#[test]
fn test_response_part_mapping() {
    let ok: Result<Option<&str>, Error> = Ok(Some("fine"));
    assert_eq!(to_response_parts(ok).unwrap(), "fine");

    let empty: Result<Option<&str>, Error> = Ok(None);
    assert_eq!(
        to_response_parts(empty).unwrap_err(),
        (500, "internal server error".to_string())
    );

    let teapot: Result<Option<&str>, Error> =
        Err(Error::new_status(418, "teapot".to_string()));
    assert_eq!(
        to_response_parts(teapot).unwrap_err(),
        (418, "teapot".to_string())
    );

    let ise: Result<Option<&str>, Error> = Err(Error::new("broke".to_string()));
    assert_eq!(
        to_response_parts(ise).unwrap_err(),
        (500, "broke".to_string())
    );
}

// A chain that completes without a response maps to the generic 500 at the
// boundary.
#[test]
fn test_dispatch_without_response_maps_to_500() {
    let mut router: Router<Chain> = Router::new();
    router
        .add(Method::Get, "/quiet".to_string(), Handler::new(no_response, None))
        .unwrap();
    let outcome = router
        .dispatch(
            Method::Get,
            &"/quiet".to_string(),
            Req::default(),
            &(),
            Vec::new(),
        )
        .map(|(_, resp)| resp);
    let parts = to_response_parts(outcome).unwrap_err();
    assert_eq!(parts, (500, "internal server error".to_string()));
}

// The error constructors keep their payloads.
#[test]
fn test_error_constructors() {
    match Error::new("oops".to_string()) {
        Error::InternalServerError(m) => assert_eq!(m, "oops"),
        other => panic!("wrong variant: {other:?}"),
    }
    match Error::new_status(503, "later".to_string()) {
        Error::StatusCode(c, m) => {
            assert_eq!(c, 503);
            assert_eq!(m, "later");
        }
        other => panic!("wrong variant: {other:?}"),
    }
    match Error::default() {
        Error::InternalServerError(m) => assert_eq!(m, "internal server error"),
        other => panic!("wrong variant: {other:?}"),
    }
}

//! An embeddable request router: route declarations are parsed into path
//! patterns, incoming method/path pairs are resolved against a route table,
//! and the matched handler chain is run with per-request parameters and
//! transient state.

use vstd::prelude::*;

/// Registration-time and per-request error types.
pub mod errors;
/// Handler chains and their execution model.
pub mod handler;
/// Name-to-value bindings extracted from a matched path.
pub mod params;
/// Route path patterns: parsing, matching, capture extraction.
pub mod path;
/// The route table and request dispatch.
pub mod router;

verus! {

/// Per-dispatch scratch state threaded through a handler chain. A fresh value
/// is built with `initial` each time a request is dispatched; handlers may
/// replace it with an updated value as the chain advances.
pub trait TransientState: Sized + Clone {
    fn initial() -> Self;
}

/// An empty transient state for applications that do not need one.
#[derive(Clone, Copy, PartialEq, Eq, Structural, Debug)]
pub struct NoState;

impl TransientState for NoState {
    fn initial() -> (r: Self)
        ensures
            r == NoState,
    {
        NoState
    }
}

} // verus!
